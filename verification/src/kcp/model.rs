//! The mathematical model of a KCP control block: its state, and each operation as
//! a function from state to state.
use vstd::prelude::*;

use crate::kcp::control::{
    KcpParams, KcpTiming, KCP_CMD_ACK, KCP_CMD_PUSH, KCP_CMD_WASK, KCP_CMD_WINS, KCP_FASTACK_LIMIT,
    KCP_THRESH_INIT, KCP_THRESH_MIN,
};
use crate::kcp::error::Error;
use crate::octets;

verus! {

/// One segment: the header fields, the sender's bookkeeping and the payload.
#[verifier::ext_equal]
pub struct SegmentState {
    pub conv: u64,
    pub cmd: u8,
    pub frg: u8,
    pub wnd: u16,
    pub ts: u32,
    pub sn: u32,
    pub una: u32,
    pub resendts: u32,
    pub rto: u32,
    pub fastack: u32,
    pub xmit: u32,
    pub data: Seq<u8>,
}

/// The state of one side of a KCP conversation.
#[verifier::ext_equal]
pub struct KcpState {
    pub conv: u64,
    pub mtu: usize,
    pub mss: usize,
    pub snd_una: u32,
    pub snd_nxt: u32,
    pub rcv_nxt: u32,
    pub ssthresh: u16,
    pub rx_rttval: u32,
    pub rx_srtt: u32,
    pub rx_rto: u32,
    pub rx_minrto: u32,
    pub timing: KcpTiming,
    pub snd_wnd: u16,
    pub rcv_wnd: u16,
    pub rmt_wnd: u16,
    pub cwnd: u16,
    /// The remote window has to be asked for.
    pub ask_send: bool,
    /// The own window has to be told.
    pub ask_tell: bool,
    pub current: u32,
    pub ts_flush: u32,
    pub nodelay: bool,
    pub updated: bool,
    pub ts_probe: u32,
    pub probe_wait: u32,
    pub incr: u64,
    pub snd_queue: Seq<SegmentState>,
    pub rcv_queue: Seq<SegmentState>,
    pub snd_buf: Seq<SegmentState>,
    pub rcv_buf: Seq<SegmentState>,
    /// Serial number and timestamp of each segment that still has to be acknowledged.
    pub acklist: Seq<(u32, u32)>,
    /// The packet under construction.
    pub buf: Seq<u8>,
    pub fastresend: Option<u32>,
    pub congestion_control: bool,
    /// Finished packets, oldest first.
    pub output: Seq<Seq<u8>>,
}

/// `later - earlier` as a signed distance on the circle of 32 bit numbers.
pub open spec fn timediff(later: u32, earlier: u32) -> int {
    let distance = later.wrapping_sub(earlier);
    if distance < 0x8000_0000 {
        distance as int
    } else {
        distance - 0x1_0000_0000
    }
}

pub open spec fn max(a: int, b: int) -> int {
    if a >= b {
        a
    } else {
        b
    }
}

pub open spec fn min(a: int, b: int) -> int {
    if a <= b {
        a
    } else {
        b
    }
}

/// `a / b`, rounded up, for `a` that is not negative.
pub open spec fn div_ceil(a: int, b: int) -> int {
    if a <= 0 {
        0
    } else {
        (a - 1) / b + 1
    }
}

/// A fresh control block.
pub open spec fn init(conv: u64, params: KcpParams) -> KcpState {
    let timing = KcpTiming::scaled(params.time_scale);
    KcpState {
        conv,
        mtu: params.mtu,
        mss: (params.mtu - 28) as usize,
        snd_una: 0,
        snd_nxt: 0,
        rcv_nxt: 0,
        ssthresh: KCP_THRESH_INIT,
        rx_rttval: 0,
        rx_srtt: 0,
        rx_rto: timing.rto_initial,
        rx_minrto: if params.nodelay {
            timing.rto_nodelay
        } else {
            timing.rto_normal
        },
        timing,
        snd_wnd: params.send_window,
        rcv_wnd: params.receive_window,
        rmt_wnd: params.receive_window,
        cwnd: 0,
        ask_send: false,
        ask_tell: false,
        current: 0,
        ts_flush: timing.interval,
        nodelay: params.nodelay,
        updated: false,
        ts_probe: 0,
        probe_wait: 0,
        incr: 0,
        snd_queue: Seq::empty(),
        rcv_queue: Seq::empty(),
        snd_buf: Seq::empty(),
        rcv_buf: Seq::empty(),
        acklist: Seq::empty(),
        buf: Seq::empty(),
        fastresend: params.fast_resend,
        congestion_control: params.congestion_control,
        output: Seq::empty(),
    }
}

// ---------------------------------------------------------------------------
// Wire format
// ---------------------------------------------------------------------------

/// A segment on the wire: 28 header bytes, then the payload.
pub open spec fn encode_segment(seg: SegmentState) -> Seq<u8> {
    octets::le_bytes(seg.conv as nat, 8) + seq![seg.cmd, seg.frg] + octets::le_bytes(
        seg.wnd as nat,
        2,
    ) + octets::le_bytes(seg.ts as nat, 4) + octets::le_bytes(seg.sn as nat, 4) + octets::le_bytes(
        seg.una as nat,
        4,
    ) + octets::le_bytes(seg.data.len(), 4) + seg.data
}

/// The conversation id that a packet starts with.
pub open spec fn conv_of(bytes: Seq<u8>) -> u64 {
    octets::le_at(bytes, 0, 8) as u64
}

/// The payload length that the header at the front of `bytes` announces.
pub open spec fn data_len_of(bytes: Seq<u8>) -> int {
    octets::le_at(bytes, 24, 4) as int
}

/// The segment at the front of `bytes`, which hold it whole.
pub open spec fn decode_segment(bytes: Seq<u8>) -> SegmentState {
    SegmentState {
        conv: conv_of(bytes),
        cmd: bytes[8],
        frg: bytes[9],
        wnd: octets::le_at(bytes, 10, 2) as u16,
        ts: octets::le_at(bytes, 12, 4) as u32,
        sn: octets::le_at(bytes, 16, 4) as u32,
        una: octets::le_at(bytes, 20, 4) as u32,
        resendts: 0,
        rto: 0,
        fastack: 0,
        xmit: 0,
        data: bytes.subrange(28, 28 + data_len_of(bytes)),
    }
}

pub open spec fn known_cmd(cmd: u8) -> bool {
    cmd == KCP_CMD_PUSH || cmd == KCP_CMD_ACK || cmd == KCP_CMD_WASK || cmd == KCP_CMD_WINS
}

// ---------------------------------------------------------------------------
// Sending and receiving messages
// ---------------------------------------------------------------------------

/// A segment that waits to be sent.
pub open spec fn queued(data: Seq<u8>, frg: u8) -> SegmentState {
    SegmentState {
        conv: 0,
        cmd: 0,
        frg,
        wnd: 0,
        ts: 0,
        sn: 0,
        una: 0,
        resendts: 0,
        rto: 0,
        fastack: 0,
        xmit: 0,
        data,
    }
}

/// `data` cut into `count` pieces of at most `mss` bytes; `frg` counts down to 0.
pub open spec fn fragments(data: Seq<u8>, mss: int, count: nat) -> Seq<SegmentState>
    decreases count,
{
    if count == 0 {
        Seq::empty()
    } else {
        let size = min(mss, data.len() as int);
        seq![queued(data.take(size), (count - 1) as u8)] + fragments(
            data.skip(size),
            mss,
            (count - 1) as nat,
        )
    }
}

/// How many segments a message of `len` bytes takes.
pub open spec fn fragment_count(len: nat, mss: int) -> int {
    max(div_ceil(len as int, mss), 1)
}

pub open spec fn send(s: KcpState, data: Seq<u8>) -> (KcpState, Result<usize, Error>) {
    let count = fragment_count(data.len(), s.mss as int);
    if count >= s.rcv_wnd || count >= 256 {
        (s, Err(Error::UserBufTooBig))
    } else {
        (
            KcpState {
                snd_queue: s.snd_queue + fragments(data, s.mss as int, count as nat),
                ..s
            },
            Ok(data.len() as usize),
        )
    }
}

/// The bytes of the first message of `queue`: the segments up to the first one with
/// `frg` 0, or all of them where there is none.
pub open spec fn message_bytes(queue: Seq<SegmentState>) -> Seq<u8>
    decreases queue.len(),
{
    if queue.len() == 0 {
        Seq::empty()
    } else if queue[0].frg == 0 {
        queue[0].data
    } else {
        queue[0].data + message_bytes(queue.drop_first())
    }
}

/// What follows the first message of `queue`.
pub open spec fn after_message(queue: Seq<SegmentState>) -> Seq<SegmentState>
    decreases queue.len(),
{
    if queue.len() == 0 {
        queue
    } else if queue[0].frg == 0 {
        queue.drop_first()
    } else {
        after_message(queue.drop_first())
    }
}

/// Whether a message can be received, or why not.
pub open spec fn peek(s: KcpState) -> Result<Seq<u8>, Error> {
    if s.rcv_queue.len() == 0 {
        Err(Error::RecvQueueEmpty)
    } else if s.rcv_queue.len() < s.rcv_queue[0].frg + 1 {
        Err(Error::ExpectingFragment)
    } else {
        Ok(message_bytes(s.rcv_queue))
    }
}

/// Moves the segments that are next in order from the reorder buffer to the queue,
/// as far as the window has room.
pub open spec fn move_buf(s: KcpState) -> KcpState
    decreases s.rcv_buf.len(),
{
    if s.rcv_buf.len() > 0 && s.rcv_buf[0].sn == s.rcv_nxt && s.rcv_queue.len() < s.rcv_wnd {
        move_buf(
            KcpState {
                rcv_nxt: s.rcv_nxt.wrapping_add(1),
                rcv_buf: s.rcv_buf.drop_first(),
                rcv_queue: s.rcv_queue.push(s.rcv_buf[0]),
                ..s
            },
        )
    } else {
        s
    }
}

/// The state after the first message has been taken out.
pub open spec fn after_recv(s: KcpState) -> KcpState {
    let full = s.rcv_queue.len() >= s.rcv_wnd;
    let moved = move_buf(KcpState { rcv_queue: after_message(s.rcv_queue), ..s });
    KcpState { ask_tell: moved.ask_tell || (full && moved.rcv_queue.len() < moved.rcv_wnd), ..moved }
}

/// Receiving into a buffer of `room` bytes.
pub open spec fn recv(s: KcpState, room: nat) -> (KcpState, Result<Seq<u8>, Error>) {
    match peek(s) {
        Err(e) => (s, Err(e)),
        Ok(message) => if message.len() > room {
            (s, Err(Error::UserBufTooSmall))
        } else {
            (after_recv(s), Ok(message))
        },
    }
}

// ---------------------------------------------------------------------------
// Input
// ---------------------------------------------------------------------------

/// The send buffer without the segments in front that `una` acknowledges.
pub open spec fn drop_acked(queue: Seq<SegmentState>, una: u32) -> Seq<SegmentState>
    decreases queue.len(),
{
    if queue.len() > 0 && timediff(una, queue[0].sn) > 0 {
        drop_acked(queue.drop_first(), una)
    } else {
        queue
    }
}

/// Recomputes the first unacknowledged serial number.
pub open spec fn shrink_buf(s: KcpState) -> KcpState {
    KcpState {
        snd_una: if s.snd_buf.len() > 0 {
            s.snd_buf[0].sn
        } else {
            s.snd_nxt
        },
        ..s
    }
}

pub open spec fn parse_una(s: KcpState, una: u32) -> KcpState {
    shrink_buf(KcpState { snd_buf: drop_acked(s.snd_buf, una), ..s })
}

/// The send buffer without the segment `sn`, which is looked for up to the first
/// segment with a greater serial number.
pub open spec fn remove_sn(queue: Seq<SegmentState>, sn: u32) -> Seq<SegmentState>
    decreases queue.len(),
{
    if queue.len() == 0 || sn < queue[0].sn {
        queue
    } else if queue[0].sn == sn {
        queue.drop_first()
    } else {
        seq![queue[0]] + remove_sn(queue.drop_first(), sn)
    }
}

/// Whether `sn` has been sent and not yet been acknowledged by `una`.
pub open spec fn in_flight(s: KcpState, sn: u32) -> bool {
    timediff(sn, s.snd_una) >= 0 && timediff(sn, s.snd_nxt) < 0
}

pub open spec fn parse_ack(s: KcpState, sn: u32) -> KcpState {
    if in_flight(s, sn) {
        shrink_buf(KcpState { snd_buf: remove_sn(s.snd_buf, sn), ..s })
    } else {
        shrink_buf(s)
    }
}

/// The round trip estimate after a sample of `rtt` milliseconds.
pub open spec fn update_ack(s: KcpState, rtt: u32) -> KcpState {
    let (srtt, rttval) = if s.rx_srtt == 0 {
        (rtt as int, rtt as int / 2)
    } else {
        let delta = if rtt >= s.rx_srtt {
            rtt - s.rx_srtt
        } else {
            s.rx_srtt - rtt
        };
        (max((7 * s.rx_srtt + rtt) / 8, 1), (3 * s.rx_rttval + delta) / 4)
    };
    let rto = srtt + max(s.timing.interval as int, 4 * rttval);
    KcpState {
        rx_srtt: srtt as u32,
        rx_rttval: rttval as u32,
        rx_rto: min(max(rto, s.rx_minrto as int), s.timing.rto_max as int) as u32,
        ..s
    }
}

/// Counts an acknowledgement that overtook the segments before `sn`.
pub open spec fn bump_fastack(seg: SegmentState, sn: u32, ts: u32) -> SegmentState {
    if sn != seg.sn && timediff(ts, seg.ts) >= 0 {
        SegmentState { fastack: seg.fastack.wrapping_add(1), ..seg }
    } else {
        seg
    }
}

/// The segments in front of `sn`, each with the overtaking counted.
pub open spec fn fastack_all(queue: Seq<SegmentState>, sn: u32, ts: u32) -> Seq<SegmentState>
    decreases queue.len(),
{
    if queue.len() == 0 || timediff(sn, queue[0].sn) < 0 {
        queue
    } else {
        seq![bump_fastack(queue[0], sn, ts)] + fastack_all(queue.drop_first(), sn, ts)
    }
}

pub open spec fn parse_fastack(s: KcpState, sn: u32, ts: u32) -> KcpState {
    if in_flight(s, sn) {
        KcpState { snd_buf: fastack_all(s.snd_buf, sn, ts), ..s }
    } else {
        s
    }
}

/// The reorder buffer with `seg` in its place; a repeated serial number changes nothing.
pub open spec fn insert_ordered(queue: Seq<SegmentState>, seg: SegmentState) -> Seq<SegmentState>
    decreases queue.len(),
{
    if queue.len() == 0 {
        seq![seg]
    } else if queue.last().sn == seg.sn {
        queue
    } else if timediff(seg.sn, queue.last().sn) > 0 {
        queue.push(seg)
    } else {
        insert_ordered(queue.drop_last(), seg).push(queue.last())
    }
}

/// The serial number lies before the end of the receive window.
pub open spec fn below_window_end(s: KcpState, sn: u32) -> bool {
    timediff(sn, s.rcv_nxt.wrapping_add(s.rcv_wnd as u32)) < 0
}

pub open spec fn parse_data(s: KcpState, seg: SegmentState) -> KcpState {
    if below_window_end(s, seg.sn) && timediff(seg.sn, s.rcv_nxt) >= 0 {
        move_buf(KcpState { rcv_buf: insert_ordered(s.rcv_buf, seg), ..s })
    } else {
        s
    }
}

/// A scan over the segments of one packet: the state so far, and the acknowledgement
/// that counts for fast retransmission.
#[verifier::ext_equal]
pub struct InputScan {
    pub state: KcpState,
    pub acked: bool,
    pub max_ack: u32,
    pub latest_ts: u32,
}

pub open spec fn apply_segment(scan: InputScan, seg: SegmentState) -> InputScan {
    let s = parse_una(KcpState { rmt_wnd: seg.wnd, ..scan.state }, seg.una);
    if seg.cmd == KCP_CMD_ACK {
        let rtt = timediff(s.current, seg.ts);
        let sampled = if rtt >= 0 {
            update_ack(s, rtt as u32)
        } else {
            s
        };
        let newest = !scan.acked || (timediff(seg.sn, scan.max_ack) > 0 && timediff(
            seg.ts,
            scan.latest_ts,
        ) > 0);
        InputScan {
            state: parse_ack(sampled, seg.sn),
            acked: true,
            max_ack: if newest {
                seg.sn
            } else {
                scan.max_ack
            },
            latest_ts: if newest {
                seg.ts
            } else {
                scan.latest_ts
            },
        }
    } else if seg.cmd == KCP_CMD_PUSH {
        if below_window_end(s, seg.sn) {
            let acking = KcpState { acklist: s.acklist.push((seg.sn, seg.ts)), ..s };
            InputScan { state: parse_data(acking, seg), ..scan }
        } else {
            InputScan { state: s, ..scan }
        }
    } else if seg.cmd == KCP_CMD_WASK {
        InputScan { state: KcpState { ask_tell: true, ..s }, ..scan }
    } else {
        InputScan { state: s, ..scan }
    }
}

/// Why the bytes do not start with a segment that can be taken. Only a push carries data.
pub open spec fn segment_error(conv: u64, bytes: Seq<u8>) -> Option<Error> {
    if bytes.len() < 28 {
        Some(Error::InvalidSegmentSize)
    } else if conv_of(bytes) != conv {
        Some(Error::ConvInconsistent)
    } else if bytes.len() < 28 + data_len_of(bytes) {
        Some(Error::InvalidSegmentDataSize)
    } else if !known_cmd(bytes[8]) {
        Some(Error::UnsupportedCmd)
    } else if bytes[8] != KCP_CMD_PUSH && data_len_of(bytes) != 0 {
        Some(Error::InvalidSegmentDataSize)
    } else {
        None
    }
}

/// All segments of `bytes`, one after the other, up to the first that cannot be taken.
/// Nothing may be left behind the last one.
pub open spec fn scan_segments(scan: InputScan, bytes: Seq<u8>) -> (InputScan, Result<(), Error>)
    decreases bytes.len(),
{
    if bytes.len() == 0 {
        (scan, Ok(()))
    } else {
        match segment_error(scan.state.conv, bytes) {
            Some(e) => (scan, Err(e)),
            None => scan_segments(
                apply_segment(scan, decode_segment(bytes)),
                bytes.skip(28 + data_len_of(bytes)),
            ),
        }
    }
}

/// The congestion window after new data has been acknowledged.
pub open spec fn grow_window(s: KcpState) -> KcpState {
    let mss = s.mss as int;
    let grown = if s.cwnd < s.ssthresh {
        KcpState { cwnd: (s.cwnd + 1) as u16, incr: (s.incr + mss) as u64, ..s }
    } else {
        let base = max(s.incr as int, mss);
        let incr = base + (mss * mss) / base + mss / 16;
        KcpState {
            cwnd: if (s.cwnd + 1) * mss <= incr {
                min(div_ceil(incr, mss), s.rmt_wnd as int) as u16
            } else {
                s.cwnd
            },
            incr: incr as u64,
            ..s
        }
    };
    if grown.cwnd > grown.rmt_wnd {
        KcpState { cwnd: grown.rmt_wnd, incr: (grown.rmt_wnd * mss) as u64, ..grown }
    } else {
        grown
    }
}

pub open spec fn input(s: KcpState, bytes: Seq<u8>) -> (KcpState, Result<usize, Error>) {
    if bytes.len() < 28 {
        (s, Err(Error::InvalidSegmentSize))
    } else {
        let (scan, result) = scan_segments(
            InputScan { state: s, acked: false, max_ack: 0, latest_ts: 0 },
            bytes,
        );
        match result {
            Err(e) => (scan.state, Err(e)),
            Ok(()) => {
                let fast = if scan.acked {
                    parse_fastack(scan.state, scan.max_ack, scan.latest_ts)
                } else {
                    scan.state
                };
                let grown = if timediff(fast.snd_una, s.snd_una) > 0 && fast.cwnd < fast.rmt_wnd {
                    grow_window(fast)
                } else {
                    fast
                };
                (grown, Ok(bytes.len() as usize))
            },
        }
    }
}

/// Taking in a packet at a given time, which the round trip samples go by.
pub open spec fn input_at(
    s: KcpState,
    current: u32,
    bytes: Seq<u8>,
) -> (KcpState, Result<usize, Error>) {
    input(KcpState { current, ..s }, bytes)
}

// ---------------------------------------------------------------------------
// Output
// ---------------------------------------------------------------------------

/// Finishes the packet under construction, if there is one.
pub open spec fn emit(s: KcpState) -> KcpState {
    if s.buf.len() > 0 {
        KcpState { output: s.output.push(s.buf), buf: Seq::empty(), ..s }
    } else {
        s
    }
}

/// Appends `bytes` to the packet under construction, or to a new one where they do not
/// fit any more.
pub open spec fn put(s: KcpState, bytes: Seq<u8>) -> KcpState {
    let room = if s.buf.len() + bytes.len() > s.mtu {
        emit(s)
    } else {
        s
    };
    KcpState { buf: room.buf + bytes, ..room }
}

/// The free part of the receive window.
pub open spec fn wnd_unused(s: KcpState) -> u16 {
    if s.rcv_queue.len() < s.rcv_wnd {
        (s.rcv_wnd - s.rcv_queue.len()) as u16
    } else {
        0
    }
}

/// A segment without payload.
pub open spec fn control_segment(s: KcpState, cmd: u8, sn: u32, ts: u32) -> SegmentState {
    SegmentState {
        conv: s.conv,
        cmd,
        frg: 0,
        wnd: wnd_unused(s),
        ts,
        sn,
        una: s.rcv_nxt,
        resendts: 0,
        rto: 0,
        fastack: 0,
        xmit: 0,
        data: Seq::empty(),
    }
}

/// One acknowledgement for each of `acks`.
pub open spec fn put_acks(s: KcpState, acks: Seq<(u32, u32)>) -> KcpState
    decreases acks.len(),
{
    if acks.len() == 0 {
        s
    } else {
        put_acks(
            put(s, encode_segment(control_segment(s, KCP_CMD_ACK, acks[0].0, acks[0].1))),
            acks.drop_first(),
        )
    }
}

pub open spec fn flush_ack(s: KcpState) -> KcpState {
    KcpState { acklist: Seq::empty(), ..put_acks(s, s.acklist) }
}

/// Decides whether the remote window, if it is closed, has to be asked for.
pub open spec fn probe_wnd_size(s: KcpState) -> KcpState {
    if s.rmt_wnd != 0 {
        KcpState { ts_probe: 0, probe_wait: 0, ..s }
    } else if s.probe_wait == 0 {
        KcpState {
            probe_wait: s.timing.probe_initial,
            ts_probe: s.current.wrapping_add(s.timing.probe_initial),
            ..s
        }
    } else if timediff(s.current, s.ts_probe) >= 0 {
        let base = max(s.probe_wait as int, s.timing.probe_initial as int);
        let wait = min(base + base / 2, s.timing.probe_max as int) as u32;
        KcpState {
            probe_wait: wait,
            ts_probe: s.current.wrapping_add(wait),
            ask_send: true,
            ..s
        }
    } else {
        s
    }
}

/// The window commands that are due; `sn` and `ts` are those of the last acknowledgement.
pub open spec fn flush_probes(s: KcpState, sn: u32, ts: u32) -> KcpState {
    let asked = if s.ask_send {
        put(s, encode_segment(control_segment(s, KCP_CMD_WASK, sn, ts)))
    } else {
        s
    };
    let told = if s.ask_tell {
        put(asked, encode_segment(control_segment(s, KCP_CMD_WINS, sn, ts)))
    } else {
        asked
    };
    KcpState { ask_send: false, ask_tell: false, ..told }
}

/// The number of segments that may be in flight.
pub open spec fn send_window(s: KcpState) -> u16 {
    let flow = min(s.snd_wnd as int, s.rmt_wnd as int);
    if s.congestion_control {
        min(flow, s.cwnd as int) as u16
    } else {
        flow as u16
    }
}

/// Gives the next serial number to the first queued segment.
pub open spec fn admit_one(s: KcpState) -> KcpState {
    let seg = SegmentState {
        conv: s.conv,
        cmd: KCP_CMD_PUSH,
        wnd: wnd_unused(s),
        ts: s.current,
        sn: s.snd_nxt,
        una: s.rcv_nxt,
        resendts: s.current,
        rto: s.rx_rto,
        fastack: 0,
        xmit: 0,
        ..s.snd_queue[0]
    };
    KcpState {
        snd_nxt: s.snd_nxt.wrapping_add(1),
        snd_queue: s.snd_queue.drop_first(),
        snd_buf: s.snd_buf.push(seg),
        ..s
    }
}

/// Gives serial numbers to queued segments while the window has room.
pub open spec fn admit_queued(s: KcpState, window: u16) -> KcpState
    decreases s.snd_queue.len(),
{
    if s.snd_queue.len() > 0 && timediff(s.snd_nxt, s.snd_una.wrapping_add(window as u32)) < 0 {
        admit_queued(admit_one(s), window)
    } else {
        s
    }
}

/// Why a segment goes out.
pub enum Sending {
    Keep,
    First,
    Timeout,
    Fast,
}

pub open spec fn sending(s: KcpState, seg: SegmentState) -> Sending {
    if seg.xmit == 0 {
        Sending::First
    } else if timediff(s.current, seg.resendts) >= 0 {
        Sending::Timeout
    } else if s.fastresend is Some && seg.fastack >= s.fastresend->0 && seg.xmit
        <= KCP_FASTACK_LIMIT {
        Sending::Fast
    } else {
        Sending::Keep
    }
}

/// The segment after the decision whether it goes out.
pub open spec fn transmit(s: KcpState, seg: SegmentState) -> SegmentState {
    let stamped = SegmentState {
        ts: s.current,
        wnd: wnd_unused(s),
        una: s.rcv_nxt,
        xmit: seg.xmit.wrapping_add(1),
        ..seg
    };
    match sending(s, seg) {
        Sending::Keep => seg,
        Sending::First => {
            let slack = if s.nodelay {
                0
            } else {
                s.rx_rto as int / 8
            };
            SegmentState {
                rto: s.rx_rto,
                resendts: s.current.wrapping_add((s.rx_rto + slack) as u32),
                ..stamped
            }
        },
        Sending::Timeout => {
            let longer = if s.nodelay {
                seg.rto + seg.rto as int / 2
            } else {
                seg.rto + max(seg.rto as int, s.rx_rto as int)
            };
            let rto = min(longer, s.timing.rto_max as int) as u32;
            SegmentState { rto, resendts: s.current.wrapping_add(rto), ..stamped }
        },
        Sending::Fast => SegmentState {
            fastack: 0,
            resendts: s.current.wrapping_add(seg.rto),
            ..stamped
        },
    }
}

/// The output after the first `n` segments of the send buffer have been looked at.
pub open spec fn put_segments(s: KcpState, n: nat) -> KcpState
    decreases n,
{
    if n == 0 {
        s
    } else {
        let seg = s.snd_buf[n - 1];
        let before = put_segments(s, (n - 1) as nat);
        if sending(s, seg) is Keep {
            before
        } else {
            put(before, encode_segment(transmit(s, seg)))
        }
    }
}

/// Some segment of the send buffer goes out for the given reason.
pub open spec fn any_sent(s: KcpState, n: nat, why: Sending) -> bool {
    exists|i: int| 0 <= i < n && #[trigger] sending(s, s.snd_buf[i]) == why
}

/// Congestion control after a flush with the send window `window`.
pub open spec fn adjust_window(s: KcpState, window: u16, lost: bool, fast: bool) -> KcpState {
    let reduced = if fast {
        let inflight = s.snd_nxt.wrapping_sub(s.snd_una) as int;
        let ssthresh = max(inflight / 2, KCP_THRESH_MIN as int);
        let cwnd = min(ssthresh + s.fastresend->0, 0xffff);
        KcpState {
            ssthresh: ssthresh as u16,
            cwnd: cwnd as u16,
            incr: (cwnd * s.mss) as u64,
            ..s
        }
    } else {
        s
    };
    let timed_out = if lost {
        KcpState {
            ssthresh: max(window as int / 2, KCP_THRESH_MIN as int) as u16,
            cwnd: 1,
            incr: s.mss as u64,
            ..reduced
        }
    } else {
        reduced
    };
    if timed_out.cwnd < 1 {
        KcpState { cwnd: 1, incr: s.mss as u64, ..timed_out }
    } else {
        timed_out
    }
}

/// Serial number and timestamp of the last pending acknowledgement.
pub open spec fn last_ack(s: KcpState) -> (u32, u32) {
    if s.acklist.len() > 0 {
        s.acklist.last()
    } else {
        (0u32, 0u32)
    }
}

/// The state in which the segments of the send buffer are decided about.
pub open spec fn before_segments(s: KcpState) -> KcpState {
    let (sn, ts) = last_ack(s);
    let controls = flush_probes(probe_wnd_size(flush_ack(s)), sn, ts);
    admit_queued(controls, send_window(controls))
}

/// A flush of a control block that has been updated.
pub open spec fn flushed(s: KcpState) -> KcpState {
    let ready = before_segments(s);
    let n = ready.snd_buf.len();
    let sent = emit(
        KcpState {
            snd_buf: Seq::new(n, |i: int| transmit(ready, ready.snd_buf[i])),
            ..put_segments(ready, n)
        },
    );
    adjust_window(
        sent,
        send_window(ready),
        any_sent(ready, n, Sending::Timeout),
        any_sent(ready, n, Sending::Fast),
    )
}

pub open spec fn flush(s: KcpState) -> (KcpState, Result<(), Error>) {
    if s.updated {
        (flushed(s), Ok(()))
    } else {
        (s, Err(Error::NeedUpdate))
    }
}

/// The state with the clock set and, where a flush is due, the time of the next one.
pub open spec fn tick(s: KcpState, current: u32) -> (KcpState, bool) {
    let first = if s.updated {
        s.ts_flush
    } else {
        current
    };
    let ts_flush = if -10000 <= timediff(current, first) < 10000 {
        first
    } else {
        current
    };
    let due = timediff(current, ts_flush) >= 0;
    let next = ts_flush.wrapping_add(s.timing.interval);
    (
        KcpState {
            current,
            updated: true,
            ts_flush: if !due {
                ts_flush
            } else if timediff(current, next) >= 0 {
                current.wrapping_add(s.timing.interval)
            } else {
                next
            },
            ..s
        },
        due,
    )
}

pub open spec fn update(s: KcpState, current: u32) -> KcpState {
    let (ticked, due) = tick(s, current);
    if due {
        flushed(ticked)
    } else {
        ticked
    }
}

/// Milliseconds until the first retransmission of `queue` is due, at most `u32::MAX`.
pub open spec fn resend_wait(queue: Seq<SegmentState>, current: u32) -> int
    decreases queue.len(),
{
    if queue.len() == 0 {
        u32::MAX as int
    } else {
        min(
            max(timediff(queue.last().resendts, current), 0),
            resend_wait(queue.drop_last(), current),
        )
    }
}

/// Milliseconds until `update` should be called.
pub open spec fn check(s: KcpState, current: u32) -> int {
    let flush_wait = timediff(s.ts_flush, current);
    if !s.updated || timediff(current, s.ts_flush) >= 0 || timediff(current, s.ts_flush) < -10000 {
        0
    } else {
        min(min(resend_wait(s.snd_buf, current), flush_wait), s.timing.interval as int)
    }
}

// ---------------------------------------------------------------------------
// Invariant
// ---------------------------------------------------------------------------

/// Bounds that the parameters give.
pub open spec fn limits_hold(s: KcpState) -> bool {
    &&& 28 < s.mtu
    &&& s.mss == s.mtu - 28
    &&& s.mss <= u32::MAX
    &&& s.timing.bounded()
    &&& s.rx_minrto <= s.timing.rto_max
    &&& s.rx_rto <= s.timing.rto_max
    &&& s.probe_wait <= s.timing.probe_max
    &&& s.incr <= 2 * (s.cwnd + 2) * s.mss
}

/// How far `sn` lies behind the first unacknowledged serial number.
pub open spec fn send_offset(s: KcpState, sn: u32) -> int {
    sn.wrapping_sub(s.snd_una) as int
}

/// The send buffer holds segments in order, from the first unacknowledged one on, and
/// never spans more than a window.
pub open spec fn send_side_holds(s: KcpState) -> bool {
    &&& send_offset(s, s.snd_nxt) <= 0xffff
    &&& s.snd_buf.len() == 0 ==> s.snd_una == s.snd_nxt
    &&& s.snd_buf.len() > 0 ==> s.snd_buf[0].sn == s.snd_una
    &&& forall|i: int|
        0 <= i < s.snd_buf.len() ==> {
            &&& send_offset(s, (#[trigger] s.snd_buf[i]).sn) < send_offset(s, s.snd_nxt)
            &&& s.snd_buf[i].data.len() <= s.mss
            &&& s.snd_buf[i].rto <= s.timing.rto_max
        }
    &&& forall|i: int, j: int|
        0 <= i < j < s.snd_buf.len() ==> send_offset(s, (#[trigger] s.snd_buf[i]).sn) < send_offset(
            s,
            (#[trigger] s.snd_buf[j]).sn,
        )
    &&& forall|i: int|
        0 <= i < s.snd_queue.len() ==> (#[trigger] s.snd_queue[i]).data.len() <= s.mss
}

/// How far `sn` lies behind the next serial number to be received.
pub open spec fn recv_offset(s: KcpState, sn: u32) -> int {
    sn.wrapping_sub(s.rcv_nxt) as int
}

/// The reorder buffer holds segments of the window in order, each once.
pub open spec fn recv_side_holds(s: KcpState) -> bool {
    &&& s.rcv_queue.len() <= s.rcv_wnd
    &&& forall|i: int|
        0 <= i < s.rcv_buf.len() ==> recv_offset(s, (#[trigger] s.rcv_buf[i]).sn) < s.rcv_wnd
    &&& forall|i: int, j: int|
        0 <= i < j < s.rcv_buf.len() ==> recv_offset(s, (#[trigger] s.rcv_buf[i]).sn) < recv_offset(
            s,
            (#[trigger] s.rcv_buf[j]).sn,
        )
}

/// No packet is empty or longer than the transmission unit.
pub open spec fn output_holds(s: KcpState) -> bool {
    &&& s.buf.len() <= s.mtu
    &&& forall|i: int|
        0 <= i < s.output.len() ==> 0 < (#[trigger] s.output[i]).len() <= s.mtu
}

/// What every operation keeps.
pub open spec fn holds(s: KcpState) -> bool {
    &&& limits_hold(s)
    &&& send_side_holds(s)
    &&& recv_side_holds(s)
    &&& output_holds(s)
}

/// The invariant between calls: no packet is under construction.
pub open spec fn well_formed(s: KcpState) -> bool {
    &&& holds(s)
    &&& s.buf.len() == 0
}

} // verus!
