//! What the operations of a KCP control block keep, and what two of them together do.
use vstd::prelude::*;

use crate::kcp::control::{KcpParams, KCP_CMD_ACK, KCP_CMD_PUSH, KCP_CMD_WASK, KCP_CMD_WINS};
use crate::kcp::model;
use crate::octets;

verus! {

/// The header fields of the segment at `at` are those of the bytes from `at` on.
pub proof fn lemma_field_of_skip(bytes: Seq<u8>, at: int)
    requires
        0 <= at,
        at + 28 <= bytes.len(),
    ensures
        forall|k: int, n: nat|
            0 <= k && k + n <= 28 ==> #[trigger] octets::le_at(bytes.skip(at), k, n)
                == octets::le_at(bytes, at + k, n),
        bytes.skip(at)[8] == bytes[at + 8],
        bytes.skip(at)[9] == bytes[at + 9],
{
    assert forall|k: int, n: nat| 0 <= k && k + n <= 28 implies #[trigger] octets::le_at(
        bytes.skip(at),
        k,
        n,
    ) == octets::le_at(bytes, at + k, n) by {
        assert(bytes.skip(at).subrange(k, k + n) =~= bytes.subrange(at + k, at + k + n));
    }
}

pub proof fn lemma_div_bound(a: int, b: int)
    requires
        0 <= a,
        0 < b,
    ensures
        0 <= a / b <= a,
{
    assert(0 <= a / b <= a) by (nonlinear_arith)
        requires
            0 <= a,
            0 < b,
    ;
}

pub proof fn lemma_init_well_formed(conv: u64, params: KcpParams)
    requires
        28 < params.mtu <= 28 + u32::MAX,
    ensures
        model::well_formed(model::init(conv, params)),
{
    let s = model::init(conv, params);
    assert(s.incr <= 2 * (s.cwnd + 2) * s.mss) by (nonlinear_arith)
        requires
            s.incr == 0,
            s.cwnd == 0,
    ;
}

/// Every piece of a message fits a segment.
pub proof fn lemma_fragments_fit(data: Seq<u8>, mss: int, count: nat)
    requires
        mss > 0,
    ensures
        model::fragments(data, mss, count).len() == count,
        forall|i: int|
            0 <= i < count ==> (#[trigger] model::fragments(data, mss, count)[i]).data.len() <= mss,
    decreases count,
{
    if count > 0 {
        let size = model::min(mss, data.len() as int);
        lemma_fragments_fit(data.skip(size), mss, (count - 1) as nat);
        let tail = model::fragments(data.skip(size), mss, (count - 1) as nat);
        let all = model::fragments(data, mss, count);
        assert forall|i: int| 0 <= i < count implies (#[trigger] all[i]).data.len() <= mss by {
            if i > 0 {
                assert(all[i] == tail[i - 1]);
            }
        }
    }
}

pub proof fn lemma_send_well_formed(s: model::KcpState, data: Seq<u8>)
    requires
        model::well_formed(s),
    ensures
        model::well_formed(model::send(s, data).0),
{
    let count = model::fragment_count(data.len(), s.mss as int);
    lemma_fragments_fit(data, s.mss as int, count as nat);
}

/// `move_buf` touches the receive side alone.
pub proof fn lemma_move_buf(s: model::KcpState)
    requires
        model::recv_side_holds(s),
    ensures
        model::recv_side_holds(model::move_buf(s)),
        model::move_buf(s) == (model::KcpState {
            rcv_nxt: model::move_buf(s).rcv_nxt,
            rcv_buf: model::move_buf(s).rcv_buf,
            rcv_queue: model::move_buf(s).rcv_queue,
            ..s
        }),
    decreases s.rcv_buf.len(),
{
    if s.rcv_buf.len() > 0 && s.rcv_buf[0].sn == s.rcv_nxt && s.rcv_queue.len() < s.rcv_wnd {
        let next = model::KcpState {
            rcv_nxt: s.rcv_nxt.wrapping_add(1),
            rcv_buf: s.rcv_buf.drop_first(),
            rcv_queue: s.rcv_queue.push(s.rcv_buf[0]),
            ..s
        };
        assert forall|i: int| 0 <= i < next.rcv_buf.len() implies model::recv_offset(
            next,
            (#[trigger] next.rcv_buf[i]).sn,
        ) == model::recv_offset(s, s.rcv_buf[i + 1].sn) - 1 by {
            assert(model::recv_offset(s, s.rcv_buf[0].sn) < model::recv_offset(
                s,
                s.rcv_buf[i + 1].sn,
            ));
        }
        lemma_move_buf(next);
    }
}

pub proof fn lemma_after_message_len(queue: Seq<model::SegmentState>)
    ensures
        model::after_message(queue).len() <= queue.len(),
    decreases queue.len(),
{
    if queue.len() > 0 {
        lemma_after_message_len(queue.drop_first());
    }
}

pub proof fn lemma_after_recv_well_formed(s: model::KcpState)
    requires
        model::well_formed(s),
    ensures
        model::well_formed(model::after_recv(s)),
{
    lemma_after_message_len(s.rcv_queue);
    let taken = model::KcpState { rcv_queue: model::after_message(s.rcv_queue), ..s };
    lemma_move_buf(taken);
}

/// Dropping acknowledged segments leaves a suffix of the send buffer.
pub proof fn lemma_drop_acked_suffix(queue: Seq<model::SegmentState>, una: u32) -> (k: int)
    ensures
        0 <= k <= queue.len(),
        model::drop_acked(queue, una) == queue.skip(k),
    decreases queue.len(),
{
    if queue.len() > 0 && model::timediff(una, queue[0].sn) > 0 {
        let k = lemma_drop_acked_suffix(queue.drop_first(), una);
        assert(queue.drop_first().skip(k) =~= queue.skip(k + 1));
        k + 1
    } else {
        assert(queue.skip(0) =~= queue);
        0
    }
}

/// Removing one segment by serial number leaves the others as they are.
pub proof fn lemma_remove_sn_form(queue: Seq<model::SegmentState>, sn: u32) -> (k: int)
    ensures
        -1 <= k < queue.len(),
        k == -1 ==> model::remove_sn(queue, sn) == queue,
        k >= 0 ==> model::remove_sn(queue, sn) == queue.remove(k),
    decreases queue.len(),
{
    if queue.len() == 0 || sn < queue[0].sn {
        -1
    } else if queue[0].sn == sn {
        assert(queue.drop_first() =~= queue.remove(0));
        0
    } else {
        let k = lemma_remove_sn_form(queue.drop_first(), sn);
        if k >= 0 {
            assert(seq![queue[0]] + queue.drop_first().remove(k) =~= queue.remove(k + 1));
            k + 1
        } else {
            assert(seq![queue[0]] + queue.drop_first() =~= queue);
            -1
        }
    }
}

proof fn lemma_skip_holds(s: model::KcpState, k: int)
    requires
        model::send_side_holds(s),
        0 <= k <= s.snd_buf.len(),
    ensures
        model::send_side_holds(
            model::shrink_buf(model::KcpState { snd_buf: s.snd_buf.skip(k), ..s }),
        ),
{
    let t = model::shrink_buf(model::KcpState { snd_buf: s.snd_buf.skip(k), ..s });
    if k < s.snd_buf.len() {
        let front = s.snd_buf[k];
        assert(t.snd_buf[0] == front);
        assert forall|i: int| 0 <= i < t.snd_buf.len() implies {
            &&& model::send_offset(t, (#[trigger] t.snd_buf[i]).sn) == model::send_offset(
                s,
                s.snd_buf[i + k].sn,
            ) - model::send_offset(s, front.sn)
        } by {
            if i > 0 {
                assert(model::send_offset(s, s.snd_buf[k].sn) < model::send_offset(
                    s,
                    s.snd_buf[i + k].sn,
                ));
            }
        }
    }
}

proof fn lemma_remove_holds(s: model::KcpState, k: int)
    requires
        model::send_side_holds(s),
        0 <= k < s.snd_buf.len(),
    ensures
        model::send_side_holds(
            model::shrink_buf(model::KcpState { snd_buf: s.snd_buf.remove(k), ..s }),
        ),
{
    if k == 0 {
        assert(s.snd_buf.remove(0) =~= s.snd_buf.skip(1));
        lemma_skip_holds(s, 1);
    } else {
        let t = model::shrink_buf(model::KcpState { snd_buf: s.snd_buf.remove(k), ..s });
        assert(t.snd_buf[0] == s.snd_buf[0]);
        assert(t.snd_una == s.snd_una);
        assert forall|i: int| 0 <= i < t.snd_buf.len() implies #[trigger] t.snd_buf[i]
            == s.snd_buf[if i < k {
            i
        } else {
            i + 1
        }] by {}
    }
}

pub proof fn lemma_shrink_unchanged(s: model::KcpState)
    requires
        model::send_side_holds(s),
    ensures
        model::shrink_buf(s) == s,
{
}

pub proof fn lemma_parse_una_holds(s: model::KcpState, una: u32)
    requires
        model::send_side_holds(s),
    ensures
        model::send_side_holds(model::parse_una(s, una)),
{
    let k = lemma_drop_acked_suffix(s.snd_buf, una);
    lemma_skip_holds(s, k);
}

pub proof fn lemma_parse_ack_holds(s: model::KcpState, sn: u32)
    requires
        model::send_side_holds(s),
    ensures
        model::send_side_holds(model::parse_ack(s, sn)),
{
    lemma_shrink_unchanged(s);
    let k = lemma_remove_sn_form(s.snd_buf, sn);
    if k >= 0 {
        lemma_remove_holds(s, k);
    }
}

pub proof fn lemma_fastack_all(queue: Seq<model::SegmentState>, sn: u32, ts: u32)
    ensures
        model::fastack_all(queue, sn, ts).len() == queue.len(),
        forall|i: int|
            0 <= i < queue.len() ==> {
                &&& (#[trigger] model::fastack_all(queue, sn, ts)[i]).sn == queue[i].sn
                &&& model::fastack_all(queue, sn, ts)[i].frg == queue[i].frg
                &&& model::fastack_all(queue, sn, ts)[i].data == queue[i].data
                &&& model::fastack_all(queue, sn, ts)[i].rto == queue[i].rto
            },
    decreases queue.len(),
{
    if queue.len() > 0 && model::timediff(sn, queue[0].sn) >= 0 {
        let rest = queue.drop_first();
        lemma_fastack_all(rest, sn, ts);
        let all = model::fastack_all(queue, sn, ts);
        let tail = model::fastack_all(rest, sn, ts);
        assert forall|i: int| 0 <= i < queue.len() implies {
            &&& (#[trigger] all[i]).sn == queue[i].sn
            &&& all[i].frg == queue[i].frg
            &&& all[i].data == queue[i].data
            &&& all[i].rto == queue[i].rto
        } by {
            if i > 0 {
                assert(all[i] == tail[i - 1]);
                assert(rest[i - 1] == queue[i]);
            }
        }
    }
}

pub proof fn lemma_parse_fastack_well_formed(s: model::KcpState, sn: u32, ts: u32)
    requires
        model::well_formed(s),
    ensures
        model::well_formed(model::parse_fastack(s, sn, ts)),
{
    lemma_fastack_all(s.snd_buf, sn, ts);
    let t = model::parse_fastack(s, sn, ts);
    assert forall|i: int| 0 <= i < t.snd_buf.len() implies {
        &&& (#[trigger] t.snd_buf[i]).sn == s.snd_buf[i].sn
        &&& t.snd_buf[i].data == s.snd_buf[i].data
        &&& t.snd_buf[i].rto == s.snd_buf[i].rto
    } by {}
}

/// The segments of `queue` lie in order within `bound` of `base`.
pub open spec fn ordered_within(queue: Seq<model::SegmentState>, base: u32, bound: int) -> bool {
    &&& forall|i: int|
        0 <= i < queue.len() ==> (#[trigger] queue[i]).sn.wrapping_sub(base) < bound
    &&& forall|i: int, j: int|
        0 <= i < j < queue.len() ==> (#[trigger] queue[i]).sn.wrapping_sub(base) < (
        #[trigger] queue[j]).sn.wrapping_sub(base)
}

proof fn lemma_insert_ordered(
    queue: Seq<model::SegmentState>,
    seg: model::SegmentState,
    base: u32,
    bound: int,
)
    requires
        ordered_within(queue, base, bound),
        seg.sn.wrapping_sub(base) < bound <= 0xffff,
    ensures
        ordered_within(model::insert_ordered(queue, seg), base, bound),
    decreases queue.len(),
{
    if queue.len() > 0 && queue.last().sn != seg.sn {
        let last = queue.last();
        let front = queue.drop_last();
        let off = last.sn.wrapping_sub(base) as int;
        if model::timediff(seg.sn, last.sn) > 0 {
            assert(off < seg.sn.wrapping_sub(base));
            let all = queue.push(seg);
            assert forall|i: int, j: int| 0 <= i < j < all.len() implies (
            #[trigger] all[i]).sn.wrapping_sub(base) < (#[trigger] all[j]).sn.wrapping_sub(
                base,
            ) by {
                if j == queue.len() {
                    if i < queue.len() - 1 {
                        assert(queue[i].sn.wrapping_sub(base) < queue[queue.len()
                            - 1].sn.wrapping_sub(base));
                    }
                }
            }
        } else {
            assert(seg.sn.wrapping_sub(base) < off);
            assert forall|i: int| 0 <= i < front.len() implies (
            #[trigger] front[i]).sn.wrapping_sub(base) < off by {
                assert(front[i] == queue[i]);
                assert(last == queue[queue.len() - 1]);
            }
            assert forall|i: int, j: int| 0 <= i < j < front.len() implies (
            #[trigger] front[i]).sn.wrapping_sub(base) < (#[trigger] front[j]).sn.wrapping_sub(
                base,
            ) by {
                assert(front[i] == queue[i] && front[j] == queue[j]);
            }
            lemma_insert_ordered(front, seg, base, off);
        }
    }
}

/// The reorder buffer stays in order with a segment of the window in its place.
pub proof fn lemma_insert_recv_side(s: model::KcpState, seg: model::SegmentState)
    requires
        model::recv_side_holds(s),
        model::recv_offset(s, seg.sn) < s.rcv_wnd,
    ensures
        model::recv_side_holds(
            model::KcpState { rcv_buf: model::insert_ordered(s.rcv_buf, seg), ..s },
        ),
{
    assert(ordered_within(s.rcv_buf, s.rcv_nxt, s.rcv_wnd as int)) by {
        assert forall|i: int| 0 <= i < s.rcv_buf.len() implies (
        #[trigger] s.rcv_buf[i]).sn.wrapping_sub(s.rcv_nxt) < s.rcv_wnd by {
            assert(model::recv_offset(s, s.rcv_buf[i].sn) < s.rcv_wnd);
        }
        assert forall|i: int, j: int| 0 <= i < j < s.rcv_buf.len() implies (
        #[trigger] s.rcv_buf[i]).sn.wrapping_sub(s.rcv_nxt) < (
        #[trigger] s.rcv_buf[j]).sn.wrapping_sub(s.rcv_nxt) by {
            assert(model::recv_offset(s, s.rcv_buf[i].sn) < model::recv_offset(
                s,
                s.rcv_buf[j].sn,
            ));
        }
    }
    lemma_insert_ordered(s.rcv_buf, seg, s.rcv_nxt, s.rcv_wnd as int);
}

pub proof fn lemma_parse_data_holds(s: model::KcpState, seg: model::SegmentState)
    requires
        model::recv_side_holds(s),
    ensures
        model::recv_side_holds(model::parse_data(s, seg)),
        model::parse_data(s, seg) == (model::KcpState {
            rcv_nxt: model::parse_data(s, seg).rcv_nxt,
            rcv_buf: model::parse_data(s, seg).rcv_buf,
            rcv_queue: model::parse_data(s, seg).rcv_queue,
            ..s
        }),
{
    if model::below_window_end(s, seg.sn) && model::timediff(seg.sn, s.rcv_nxt) >= 0 {
        lemma_insert_recv_side(s, seg);
        lemma_move_buf(model::KcpState { rcv_buf: model::insert_ordered(s.rcv_buf, seg), ..s });
    }
}

/// Taking one segment of a packet keeps the invariant.
pub proof fn lemma_apply_segment_well_formed(scan: model::InputScan, seg: model::SegmentState)
    requires
        model::well_formed(scan.state),
    ensures
        model::well_formed(model::apply_segment(scan, seg).state),
        model::apply_segment(scan, seg).state.conv == scan.state.conv,
{
    let open = model::KcpState { rmt_wnd: seg.wnd, ..scan.state };
    assert(model::well_formed(open)) by {
        assert forall|i: int| 0 <= i < open.snd_buf.len() implies model::send_offset(
            open,
            (#[trigger] open.snd_buf[i]).sn,
        ) == model::send_offset(scan.state, scan.state.snd_buf[i].sn) by {}
        assert forall|i: int| 0 <= i < open.rcv_buf.len() implies model::recv_offset(
            open,
            (#[trigger] open.rcv_buf[i]).sn,
        ) == model::recv_offset(scan.state, scan.state.rcv_buf[i].sn) by {}
    }
    lemma_parse_una_holds(open, seg.una);
    let s = model::parse_una(open, seg.una);
    assert(model::well_formed(s));
    if seg.cmd == KCP_CMD_ACK {
        let rtt = model::timediff(s.current, seg.ts);
        let sampled = if rtt >= 0 {
            model::update_ack(s, rtt as u32)
        } else {
            s
        };
        assert(model::well_formed(sampled));
        lemma_parse_ack_holds(sampled, seg.sn);
    } else if seg.cmd == KCP_CMD_PUSH {
        let acking = model::KcpState { acklist: s.acklist.push((seg.sn, seg.ts)), ..s };
        assert(model::well_formed(acking));
        lemma_parse_data_holds(acking, seg);
    }
}

/// The limits hold when the round trip time of an acknowledgement is sampled.
pub proof fn lemma_apply_segment_limits(scan: model::InputScan, seg: model::SegmentState)
    requires
        model::well_formed(scan.state),
    ensures
        model::limits_hold(
            model::parse_una(model::KcpState { rmt_wnd: seg.wnd, ..scan.state }, seg.una),
        ),
{
}

/// The congestion window arithmetic stays within its bounds.
pub proof fn lemma_grow_window(s: model::KcpState)
    requires
        model::limits_hold(s),
        s.cwnd < s.rmt_wnd,
    ensures
        ({
            let mss = s.mss as int;
            let base = model::max(s.incr as int, mss);
            &&& 0 < base
            &&& base + (mss * mss) / base + mss / 16 <= u64::MAX
            &&& s.incr + mss <= u64::MAX
            &&& 0 <= mss * mss <= u64::MAX
            &&& 0 <= (mss * mss) / base <= mss
            &&& 0 <= (s.cwnd + 1) * mss <= u64::MAX
            &&& 0 <= s.rmt_wnd * mss <= u64::MAX
        }),
        model::limits_hold(model::grow_window(s)),
{
    let mss = s.mss as int;
    let cwnd = s.cwnd as int;
    let incr = s.incr as int;
    let base = model::max(incr, mss);
    assert(0 <= mss * mss <= 0xffff_ffff * 0xffff_ffff) by (nonlinear_arith)
        requires
            0 < mss <= 0xffff_ffff,
    ;
    assert(0 <= (mss * mss) / base <= mss) by (nonlinear_arith)
        requires
            0 < mss <= base,
    ;
    assert(2 * (cwnd + 2) * mss <= 2 * 65537 * 0xffff_ffff) by (nonlinear_arith)
        requires
            0 < mss <= 0xffff_ffff,
            0 <= cwnd <= 65535,
    ;
    assert(0 <= (cwnd + 1) * mss <= 65536 * 0xffff_ffff) by (nonlinear_arith)
        requires
            0 < mss <= 0xffff_ffff,
            0 <= cwnd <= 65535,
    ;
    assert(0 <= s.rmt_wnd * mss <= 65535 * 0xffff_ffff) by (nonlinear_arith)
        requires
            0 < mss <= 0xffff_ffff,
            0 <= s.rmt_wnd <= 65535,
    ;
    let t = model::grow_window(s);
    if s.cwnd < s.ssthresh {
        assert(incr + mss <= 2 * (cwnd + 1 + 2) * mss) by (nonlinear_arith)
            requires
                incr <= 2 * (cwnd + 2) * mss,
                0 < mss,
        ;
    } else {
        let next = base + (mss * mss) / base + mss / 16;
        assert(mss <= 2 * (cwnd + 2) * mss) by (nonlinear_arith)
            requires
                0 < mss,
                0 <= cwnd,
        ;
        if (cwnd + 1) * mss <= next {
            let ceil = model::div_ceil(next, mss);
            assert(ceil >= cwnd + 1) by (nonlinear_arith)
                requires
                    (cwnd + 1) * mss <= next,
                    0 < mss,
                    0 <= cwnd,
                    ceil == (next - 1) / mss + 1,
            ;
            let grown = model::min(ceil, s.rmt_wnd as int);
            assert(grown >= cwnd + 1);
            assert(next <= 2 * (grown + 2) * mss) by (nonlinear_arith)
                requires
                    next <= 2 * (cwnd + 2) * mss + mss + mss / 16,
                    grown >= cwnd + 1,
                    0 < mss,
                    0 <= cwnd,
            ;
        } else {
            assert(next <= 2 * (cwnd + 2) * mss) by (nonlinear_arith)
                requires
                    next < (cwnd + 1) * mss,
                    0 < mss,
                    0 <= cwnd,
            ;
        }
    }
}

pub proof fn lemma_encode_len(seg: model::SegmentState)
    ensures
        model::encode_segment(seg).len() == 28 + seg.data.len(),
{
    octets::lemma_le_bytes_len(seg.conv as nat, 8);
    octets::lemma_le_bytes_len(seg.wnd as nat, 2);
    octets::lemma_le_bytes_len(seg.ts as nat, 4);
    octets::lemma_le_bytes_len(seg.sn as nat, 4);
    octets::lemma_le_bytes_len(seg.una as nat, 4);
    octets::lemma_le_bytes_len(seg.data.len(), 4);
}

/// Appending to the output keeps every packet within the transmission unit.
pub proof fn lemma_put_holds(s: model::KcpState, bytes: Seq<u8>)
    requires
        model::output_holds(s),
        bytes.len() <= s.mtu,
    ensures
        model::output_holds(model::put(s, bytes)),
        model::put(s, bytes) == (model::KcpState {
            buf: model::put(s, bytes).buf,
            output: model::put(s, bytes).output,
            ..s
        }),
{
}

pub proof fn lemma_put_acks_holds(s: model::KcpState, acks: Seq<(u32, u32)>)
    requires
        model::output_holds(s),
        28 <= s.mtu,
    ensures
        model::output_holds(model::put_acks(s, acks)),
        model::put_acks(s, acks) == (model::KcpState {
            buf: model::put_acks(s, acks).buf,
            output: model::put_acks(s, acks).output,
            ..s
        }),
    decreases acks.len(),
{
    if acks.len() > 0 {
        let seg = model::control_segment(s, KCP_CMD_ACK, acks[0].0, acks[0].1);
        lemma_encode_len(seg);
        lemma_put_holds(s, model::encode_segment(seg));
        lemma_put_acks_holds(model::put(s, model::encode_segment(seg)), acks.drop_first());
    }
}

/// A state that differs in the output alone.
pub open spec fn same_queues(s: model::KcpState, t: model::KcpState) -> bool {
    &&& s.conv == t.conv && s.mtu == t.mtu && s.mss == t.mss
    &&& s.snd_una == t.snd_una && s.snd_nxt == t.snd_nxt && s.rcv_nxt == t.rcv_nxt
    &&& s.snd_queue == t.snd_queue && s.snd_buf == t.snd_buf
    &&& s.rcv_queue == t.rcv_queue && s.rcv_buf == t.rcv_buf
    &&& s.rcv_wnd == t.rcv_wnd
    &&& s.timing == t.timing
}

pub proof fn lemma_same_queues(s: model::KcpState, t: model::KcpState)
    requires
        same_queues(s, t),
    ensures
        model::send_side_holds(s) ==> model::send_side_holds(t),
        model::recv_side_holds(s) ==> model::recv_side_holds(t),
        model::wnd_unused(s) == model::wnd_unused(t),
{
    assert forall|sn: u32| #[trigger] model::send_offset(s, sn) == model::send_offset(t, sn) by {}
    assert forall|sn: u32| #[trigger] model::recv_offset(s, sn) == model::recv_offset(t, sn) by {}
}

pub proof fn lemma_controls_hold(s: model::KcpState, sn: u32, ts: u32)
    requires
        model::holds(s),
    ensures
        ({
            let acked = model::flush_ack(s);
            let probed = model::probe_wnd_size(acked);
            let controls = model::flush_probes(probed, sn, ts);
            &&& model::holds(acked)
            &&& model::holds(probed)
            &&& model::holds(controls)
            &&& same_queues(s, controls)
        }),
{
    lemma_put_acks_holds(s, s.acklist);
    let acked = model::flush_ack(s);
    lemma_same_queues(s, acked);
    let probed = model::probe_wnd_size(acked);
    lemma_same_queues(s, probed);
    let ask = model::control_segment(probed, KCP_CMD_WASK, sn, ts);
    let tell = model::control_segment(probed, KCP_CMD_WINS, sn, ts);
    lemma_encode_len(ask);
    lemma_encode_len(tell);
    let asked = if probed.ask_send {
        model::put(probed, model::encode_segment(ask))
    } else {
        probed
    };
    lemma_put_holds(probed, model::encode_segment(ask));
    lemma_put_holds(asked, model::encode_segment(tell));
    let controls = model::flush_probes(probed, sn, ts);
    lemma_same_queues(s, controls);
}

/// Giving out one serial number keeps the invariant.
pub proof fn lemma_admit_one_holds(s: model::KcpState, window: u16)
    requires
        model::holds(s),
        s.snd_queue.len() > 0,
        model::timediff(s.snd_nxt, s.snd_una.wrapping_add(window as u32)) < 0,
    ensures
        model::holds(model::admit_one(s)),
{
    let next = model::admit_one(s);
    assert(model::send_offset(s, s.snd_nxt) < window);
    assert(model::send_offset(next, next.snd_nxt) == model::send_offset(s, s.snd_nxt) + 1);
    assert forall|i: int| 0 <= i < next.snd_buf.len() implies {
        &&& model::send_offset(next, (#[trigger] next.snd_buf[i]).sn) == (if i < s.snd_buf.len() {
            model::send_offset(s, s.snd_buf[i].sn)
        } else {
            model::send_offset(s, s.snd_nxt)
        })
    } by {}
    assert(next.snd_buf[0].sn == next.snd_una);
    assert forall|i: int| 0 <= i < next.rcv_buf.len() implies model::recv_offset(
        next,
        (#[trigger] next.rcv_buf[i]).sn,
    ) == model::recv_offset(s, s.rcv_buf[i].sn) by {}
}

/// Giving out serial numbers keeps the invariant.
pub proof fn lemma_admit_queued_holds(s: model::KcpState, window: u16)
    requires
        model::holds(s),
    ensures
        model::holds(model::admit_queued(s, window)),
        model::admit_queued(s, window) == (model::KcpState {
            snd_nxt: model::admit_queued(s, window).snd_nxt,
            snd_queue: model::admit_queued(s, window).snd_queue,
            snd_buf: model::admit_queued(s, window).snd_buf,
            ..s
        }),
    decreases s.snd_queue.len(),
{
    if s.snd_queue.len() > 0 && model::timediff(
        s.snd_nxt,
        s.snd_una.wrapping_add(window as u32),
    ) < 0 {
        lemma_admit_one_holds(s, window);
        lemma_admit_queued_holds(model::admit_one(s), window);
    }
}

/// The output of the segments stays within the transmission unit.
pub proof fn lemma_put_segments_holds(s: model::KcpState, n: nat)
    requires
        model::holds(s),
        n <= s.snd_buf.len(),
    ensures
        model::output_holds(model::put_segments(s, n)),
        model::put_segments(s, n) == (model::KcpState {
            buf: model::put_segments(s, n).buf,
            output: model::put_segments(s, n).output,
            ..s
        }),
    decreases n,
{
    if n > 0 {
        lemma_put_segments_holds(s, (n - 1) as nat);
        let seg = s.snd_buf[n - 1];
        lemma_encode_len(model::transmit(s, seg));
        lemma_put_holds(
            model::put_segments(s, (n - 1) as nat),
            model::encode_segment(model::transmit(s, seg)),
        );
    }
}

/// A flush keeps the invariant and leaves no packet under construction.
pub proof fn lemma_flushed_well_formed(s: model::KcpState)
    requires
        model::well_formed(s),
    ensures
        model::well_formed(model::flushed(s)),
        model::holds(model::before_segments(s)),
        model::send_window(model::before_segments(s)) == model::send_window(
            model::flush_probes(
                model::probe_wnd_size(model::flush_ack(s)),
                model::last_ack(s).0,
                model::last_ack(s).1,
            ),
        ),
{
    let (sn, ts) = model::last_ack(s);
    lemma_controls_hold(s, sn, ts);
    let controls = model::flush_probes(model::probe_wnd_size(model::flush_ack(s)), sn, ts);
    lemma_admit_queued_holds(controls, model::send_window(controls));
    let ready = model::before_segments(s);
    lemma_sent_well_formed(ready);
    let n = ready.snd_buf.len();
    lemma_put_segments_holds(ready, n);
    let sent = model::emit(
        model::KcpState {
            snd_buf: Seq::new(n, |i: int| model::transmit(ready, ready.snd_buf[i])),
            ..model::put_segments(ready, n)
        },
    );
    assert(model::well_formed(sent));
    let lost = model::any_sent(ready, n, model::Sending::Timeout);
    let fast = model::any_sent(ready, n, model::Sending::Fast);
    lemma_adjust_window(sent, model::send_window(ready), lost, fast);
}

/// Congestion control after a flush stays within its bounds.
pub proof fn lemma_adjust_window(s: model::KcpState, window: u16, lost: bool, fast: bool)
    requires
        model::well_formed(s),
    ensures
        model::well_formed(model::adjust_window(s, window, lost, fast)),
        forall|cwnd: int| 0 <= cwnd <= 0xffff ==> 0 <= #[trigger] (cwnd * s.mss) <= u64::MAX,
{
    let mss = s.mss as int;
    assert forall|cwnd: int| 0 <= cwnd <= 0xffff implies 0 <= #[trigger] (cwnd * s.mss)
        <= u64::MAX && cwnd * s.mss <= 2 * (cwnd + 2) * s.mss by {
        assert(0 <= cwnd * mss <= 0xffff * 0xffff_ffff && cwnd * mss <= 2 * (cwnd + 2) * mss)
            by (nonlinear_arith)
            requires
                0 < mss <= 0xffff_ffff,
                0 <= cwnd <= 0xffff,
        ;
    }
    assert(mss <= 2 * (1 + 2) * mss) by (nonlinear_arith)
        requires
            0 < mss,
    ;
    let t = model::adjust_window(s, window, lost, fast);
    assert(same_queues(s, t));
    lemma_same_queues(s, t);
}

/// The decision about a segment does not depend on the output or on the send buffer.
pub proof fn lemma_transmit_frame(
    s: model::KcpState,
    t: model::KcpState,
    seg: model::SegmentState,
)
    requires
        s == (model::KcpState { snd_buf: s.snd_buf, buf: s.buf, output: s.output, ..t }),
    ensures
        model::sending(s, seg) == model::sending(t, seg),
        model::transmit(s, seg) == model::transmit(t, seg),
        model::wnd_unused(s) == model::wnd_unused(t),
{
}

pub proof fn lemma_any_sent_step(s: model::KcpState, n: nat, why: model::Sending)
    requires
        n < s.snd_buf.len(),
    ensures
        model::any_sent(s, n + 1, why) == (model::any_sent(s, n, why) || model::sending(
            s,
            s.snd_buf[n as int],
        ) == why),
{
    if model::any_sent(s, n + 1, why) {
        let i = choose|i: int|
            0 <= i < n + 1 && #[trigger] model::sending(s, s.snd_buf[i]) == why;
        if i < n {
            assert(model::any_sent(s, n, why));
        }
    }
}

/// The state after all segments have been decided about and the last packet is finished.
pub proof fn lemma_sent_well_formed(ready: model::KcpState)
    requires
        model::holds(ready),
    ensures
        model::well_formed(
            model::emit(
                model::KcpState {
                    snd_buf: Seq::new(
                        ready.snd_buf.len(),
                        |i: int| model::transmit(ready, ready.snd_buf[i]),
                    ),
                    ..model::put_segments(ready, ready.snd_buf.len())
                },
            ),
        ),
{
    let n = ready.snd_buf.len();
    lemma_put_segments_holds(ready, n);
    let put = model::KcpState {
        snd_buf: Seq::new(n, |i: int| model::transmit(ready, ready.snd_buf[i])),
        ..model::put_segments(ready, n)
    };
    let sent = model::emit(put);
    assert forall|i: int| 0 <= i < n implies {
        &&& (#[trigger] sent.snd_buf[i]).sn == ready.snd_buf[i].sn
        &&& sent.snd_buf[i].data == ready.snd_buf[i].data
        &&& sent.snd_buf[i].rto <= ready.timing.rto_max
        &&& model::send_offset(sent, sent.snd_buf[i].sn) == model::send_offset(
            ready,
            ready.snd_buf[i].sn,
        )
    } by {}
    assert forall|i: int| 0 <= i < sent.rcv_buf.len() implies model::recv_offset(
        sent,
        (#[trigger] sent.rcv_buf[i]).sn,
    ) == model::recv_offset(ready, ready.rcv_buf[i].sn) by {}
}

/// The two states belong to the same conversation with the same limits.
pub open spec fn same_frame(s: model::KcpState, t: model::KcpState) -> bool {
    s.conv == t.conv && s.mtu == t.mtu && s.mss == t.mss && s.rcv_wnd == t.rcv_wnd
}

/// How many segments wait to be sent or acknowledged.
pub open spec fn pending(s: model::KcpState) -> nat {
    s.snd_queue.len() + s.snd_buf.len()
}

pub proof fn lemma_send_frame(s: model::KcpState, data: Seq<u8>)
    requires
        model::well_formed(s),
        model::send(s, data).1 is Ok,
    ensures
        same_frame(s, model::send(s, data).0),
        pending(model::send(s, data).0) == pending(s) + model::fragment_count(
            data.len(),
            s.mss as int,
        ),
        model::send(s, data).0.output == s.output,
{
    lemma_fragments_fit(
        data,
        s.mss as int,
        model::fragment_count(data.len(), s.mss as int) as nat,
    );
}

proof fn lemma_admit_pending(s: model::KcpState, window: u16)
    ensures
        pending(model::admit_queued(s, window)) == pending(s),
    decreases s.snd_queue.len(),
{
    if s.snd_queue.len() > 0 && model::timediff(
        s.snd_nxt,
        s.snd_una.wrapping_add(window as u32),
    ) < 0 {
        lemma_admit_pending(model::admit_one(s), window);
    }
}

/// A flush sends, and forgets nothing.
pub proof fn lemma_flushed_frame(s: model::KcpState)
    requires
        model::well_formed(s),
    ensures
        same_frame(s, model::flushed(s)),
        pending(model::flushed(s)) == pending(s),
        model::flushed(s).updated == s.updated,
        model::flushed(s).rcv_queue == s.rcv_queue,
        model::flushed(s).rcv_buf == s.rcv_buf,
        model::flushed(s).rcv_nxt == s.rcv_nxt,
{
    let (sn, ts) = model::last_ack(s);
    lemma_put_acks_holds(s, s.acklist);
    lemma_controls_hold(s, sn, ts);
    let controls = model::flush_probes(model::probe_wnd_size(model::flush_ack(s)), sn, ts);
    let window = model::send_window(controls);
    lemma_admit_queued_holds(controls, window);
    lemma_admit_pending(controls, window);
    let ready = model::before_segments(s);
    lemma_put_segments_holds(ready, ready.snd_buf.len());
    lemma_flags_kept(s, sn, ts);
}

proof fn lemma_flags_kept(s: model::KcpState, sn: u32, ts: u32)
    requires
        model::holds(s),
    ensures
        model::flush_probes(
            model::probe_wnd_size(model::flush_ack(s)),
            sn,
            ts,
        ).updated == s.updated,
{
    lemma_put_acks_holds(s, s.acklist);
}

pub proof fn lemma_update_frame(s: model::KcpState, current: u32)
    requires
        model::well_formed(s),
    ensures
        same_frame(s, model::update(s, current)),
        pending(model::update(s, current)) == pending(s),
        model::update(s, current).updated,
        model::well_formed(model::update(s, current)),
        model::update(s, current).rcv_queue == s.rcv_queue,
        model::update(s, current).rcv_buf == s.rcv_buf,
        model::update(s, current).rcv_nxt == s.rcv_nxt,
{
    let (ticked, due) = model::tick(s, current);
    lemma_same_queues(s, ticked);
    if due {
        lemma_flushed_frame(ticked);
        lemma_flushed_well_formed(ticked);
    }
}

proof fn lemma_apply_segment_frame(scan: model::InputScan, seg: model::SegmentState)
    requires
        model::well_formed(scan.state),
    ensures
        same_frame(scan.state, model::apply_segment(scan, seg).state),
        pending(model::apply_segment(scan, seg).state) <= pending(scan.state),
        model::apply_segment(scan, seg).state.output == scan.state.output,
{
    let open = model::KcpState { rmt_wnd: seg.wnd, ..scan.state };
    lemma_same_queues(scan.state, open);
    let k = lemma_drop_acked_suffix(open.snd_buf, seg.una);
    lemma_parse_una_holds(open, seg.una);
    let s = model::parse_una(open, seg.una);
    if seg.cmd == KCP_CMD_ACK {
        let _ = lemma_remove_sn_form(s.snd_buf, seg.sn);
    } else if seg.cmd == KCP_CMD_PUSH {
        let acking = model::KcpState { acklist: s.acklist.push((seg.sn, seg.ts)), ..s };
        lemma_same_queues(s, acking);
        lemma_parse_data_holds(acking, seg);
    }
}

proof fn lemma_scan_frame(scan: model::InputScan, bytes: Seq<u8>)
    requires
        model::well_formed(scan.state),
    ensures
        same_frame(scan.state, model::scan_segments(scan, bytes).0.state),
        pending(model::scan_segments(scan, bytes).0.state) <= pending(scan.state),
        model::scan_segments(scan, bytes).0.state.output == scan.state.output,
        model::well_formed(model::scan_segments(scan, bytes).0.state),
    decreases bytes.len(),
{
    if bytes.len() >= 28 && model::segment_error(scan.state.conv, bytes) is None {
        let seg = model::decode_segment(bytes);
        lemma_apply_segment_frame(scan, seg);
        lemma_apply_segment_well_formed(scan, seg);
        lemma_scan_frame(
            model::apply_segment(scan, seg),
            bytes.skip(28 + model::data_len_of(bytes)),
        );
    }
}

/// Taking in a packet adds nothing to what has to be sent.
pub proof fn lemma_input_frame(s: model::KcpState, bytes: Seq<u8>)
    requires
        model::well_formed(s),
    ensures
        same_frame(s, model::input(s, bytes).0),
        pending(model::input(s, bytes).0) <= pending(s),
        model::input(s, bytes).0.output == s.output,
{
    if bytes.len() >= 28 {
        let start = model::InputScan { state: s, acked: false, max_ack: 0, latest_ts: 0 };
        lemma_scan_frame(start, bytes);
        let scan = model::scan_segments(start, bytes).0;
        lemma_fastack_all(scan.state.snd_buf, scan.max_ack, scan.latest_ts);
    }
}

/// Taking in a packet keeps the invariant, whatever the packet holds.
pub proof fn lemma_input_well_formed(s: model::KcpState, bytes: Seq<u8>)
    requires
        model::well_formed(s),
    ensures
        model::well_formed(model::input(s, bytes).0),
{
    if bytes.len() >= 28 {
        let start = model::InputScan { state: s, acked: false, max_ack: 0, latest_ts: 0 };
        lemma_scan_frame(start, bytes);
        let (scan, result) = model::scan_segments(start, bytes);
        if result is Ok {
            lemma_parse_fastack_well_formed(scan.state, scan.max_ack, scan.latest_ts);
            let fast = if scan.acked {
                model::parse_fastack(scan.state, scan.max_ack, scan.latest_ts)
            } else {
                scan.state
            };
            if model::timediff(fast.snd_una, s.snd_una) > 0 && fast.cwnd < fast.rmt_wnd {
                lemma_grow_window(fast);
                lemma_same_queues(fast, model::grow_window(fast));
            }
        }
    }
}

proof fn lemma_move_buf_total(s: model::KcpState)
    ensures
        model::move_buf(s).rcv_queue.len() + model::move_buf(s).rcv_buf.len()
            == s.rcv_queue.len() + s.rcv_buf.len(),
    decreases s.rcv_buf.len(),
{
    if s.rcv_buf.len() > 0 && s.rcv_buf[0].sn == s.rcv_nxt && s.rcv_queue.len() < s.rcv_wnd {
        lemma_move_buf_total(
            model::KcpState {
                rcv_nxt: s.rcv_nxt.wrapping_add(1),
                rcv_buf: s.rcv_buf.drop_first(),
                rcv_queue: s.rcv_queue.push(s.rcv_buf[0]),
                ..s
            },
        );
    }
}

/// Receiving a message makes the receive side smaller.
pub proof fn lemma_after_recv_shrinks(s: model::KcpState)
    requires
        s.rcv_queue.len() > 0,
    ensures
        model::after_recv(s).rcv_queue.len() + model::after_recv(s).rcv_buf.len()
            < s.rcv_queue.len() + s.rcv_buf.len(),
{
    let taken = model::KcpState { rcv_queue: model::after_message(s.rcv_queue), ..s };
    lemma_move_buf_total(taken);
    lemma_after_message_len(s.rcv_queue.drop_first());
}

pub proof fn lemma_after_recv_frame(s: model::KcpState)
    requires
        model::well_formed(s),
    ensures
        same_frame(s, model::after_recv(s)),
        pending(model::after_recv(s)) == pending(s),
        model::after_recv(s).output == s.output,
        model::after_recv(s).updated == s.updated,
{
    lemma_after_message_len(s.rcv_queue);
    lemma_move_buf(model::KcpState { rcv_queue: model::after_message(s.rcv_queue), ..s });
}

// ---------------------------------------------------------------------------
// Laws
// ---------------------------------------------------------------------------

/// What the peer sees of a segment: the sender's bookkeeping does not travel.
pub open spec fn on_the_wire(seg: model::SegmentState) -> model::SegmentState {
    model::SegmentState { resendts: 0, rto: 0, fastack: 0, xmit: 0, ..seg }
}

/// A segment that has been encoded is read back as it was, whatever follows it.
pub proof fn law_segment_roundtrip(seg: model::SegmentState, tail: Seq<u8>)
    requires
        seg.data.len() <= u32::MAX,
    ensures
        ({
            let bytes = model::encode_segment(seg) + tail;
            &&& model::data_len_of(bytes) == seg.data.len()
            &&& model::decode_segment(bytes) == on_the_wire(seg)
            &&& bytes.skip(28 + seg.data.len() as int) == tail
        }),
{
    octets::lemma_pow256_values();
    octets::lemma_le_roundtrip(seg.conv as nat, 8);
    octets::lemma_le_roundtrip(seg.wnd as nat, 2);
    octets::lemma_le_roundtrip(seg.ts as nat, 4);
    octets::lemma_le_roundtrip(seg.sn as nat, 4);
    octets::lemma_le_roundtrip(seg.una as nat, 4);
    octets::lemma_le_roundtrip(seg.data.len(), 4);
    lemma_encode_len(seg);
    let bytes = model::encode_segment(seg) + tail;
    assert(bytes.subrange(0, 8) =~= octets::le_bytes(seg.conv as nat, 8));
    assert(bytes.subrange(10, 12) =~= octets::le_bytes(seg.wnd as nat, 2));
    assert(bytes.subrange(12, 16) =~= octets::le_bytes(seg.ts as nat, 4));
    assert(bytes.subrange(16, 20) =~= octets::le_bytes(seg.sn as nat, 4));
    assert(bytes.subrange(20, 24) =~= octets::le_bytes(seg.una as nat, 4));
    assert(bytes.subrange(24, 28) =~= octets::le_bytes(seg.data.len(), 4));
    assert(bytes.subrange(28, 28 + seg.data.len() as int) =~= seg.data);
    assert(bytes.skip(28 + seg.data.len() as int) =~= tail);
}

/// A packet made of `segs`, one behind the other.
pub open spec fn packet_of(segs: Seq<model::SegmentState>) -> Seq<u8>
    decreases segs.len(),
{
    if segs.len() == 0 {
        Seq::empty()
    } else {
        model::encode_segment(segs[0]) + packet_of(segs.drop_first())
    }
}

/// The scan after `segs` have been taken one after the other.
pub open spec fn apply_all(
    scan: model::InputScan,
    segs: Seq<model::SegmentState>,
) -> model::InputScan
    decreases segs.len(),
{
    if segs.len() == 0 {
        scan
    } else {
        apply_all(model::apply_segment(scan, on_the_wire(segs[0])), segs.drop_first())
    }
}

/// A packet is taken apart into exactly the segments that it was made of, in order.
pub proof fn law_packet_roundtrip(scan: model::InputScan, segs: Seq<model::SegmentState>)
    requires
        model::well_formed(scan.state),
        forall|i: int|
            0 <= i < segs.len() ==> {
                &&& (#[trigger] segs[i]).conv == scan.state.conv
                &&& model::known_cmd(segs[i].cmd)
                &&& segs[i].cmd != KCP_CMD_PUSH ==> segs[i].data.len() == 0
                &&& segs[i].data.len() <= u32::MAX
            },
    ensures
        model::scan_segments(scan, packet_of(segs)) == (
            apply_all(scan, segs),
            Ok::<(), crate::kcp::error::Error>(()),
        ),
    decreases segs.len(),
{
    if segs.len() > 0 {
        let seg = segs[0];
        let rest = segs.drop_first();
        let bytes = packet_of(segs);
        law_segment_roundtrip(seg, packet_of(rest));
        lemma_encode_len(seg);
        assert(model::decode_segment(bytes).conv == seg.conv);
        assert(bytes[8] == model::decode_segment(bytes).cmd);
        lemma_apply_segment_well_formed(scan, on_the_wire(seg));
        law_packet_roundtrip(model::apply_segment(scan, on_the_wire(seg)), rest);
    }
}

/// A message that has been cut into segments is put together again, and nothing of what
/// follows it is taken.
pub proof fn law_message_roundtrip(
    data: Seq<u8>,
    mss: int,
    count: nat,
    rest: Seq<model::SegmentState>,
)
    requires
        0 < mss,
        1 <= count <= 256,
        data.len() <= count * mss,
    ensures
        model::message_bytes(model::fragments(data, mss, count) + rest) == data,
        model::after_message(model::fragments(data, mss, count) + rest) == rest,
    decreases count,
{
    let all = model::fragments(data, mss, count);
    let size = model::min(mss, data.len() as int);
    let tail = model::fragments(data.skip(size), mss, (count - 1) as nat);
    assert((all + rest).drop_first() =~= tail + rest);
    assert((all + rest)[0] == model::queued(data.take(size), (count - 1) as u8));
    if count == 1 {
        assert(tail + rest =~= rest);
        assert(count * mss == mss) by (nonlinear_arith)
            requires
                count == 1,
        ;
        assert(data.take(size) =~= data);
    } else {
        assert(data.skip(size).len() <= (count - 1) * mss) by (nonlinear_arith)
            requires
                data.skip(size).len() == data.len() - size,
                data.len() <= count * mss,
                size == mss || size == data.len(),
                count >= 1,
                0 < mss,
        ;
        law_message_roundtrip(data.skip(size), mss, (count - 1) as nat, rest);
        assert(data.take(size) + data.skip(size) =~= data);
    }
}

/// A message that `send` accepts is what the peer receives from the segments that `send`
/// queued for it.
pub proof fn law_send_then_recv(s: model::KcpState, data: Seq<u8>)
    requires
        model::well_formed(s),
        model::send(s, data).1 is Ok,
    ensures
        ({
            let sent = model::send(s, data).0.snd_queue.skip(s.snd_queue.len() as int);
            &&& model::message_bytes(sent) == data
            &&& model::after_message(sent).len() == 0
        }),
{
    let mss = s.mss as int;
    let len = data.len() as int;
    let count = model::fragment_count(data.len(), mss);
    let sent = model::send(s, data).0.snd_queue.skip(s.snd_queue.len() as int);
    assert(sent =~= model::fragments(data, mss, count as nat) + Seq::empty());
    if len > 0 {
        assert(len <= ((len - 1) / mss + 1) * mss) by (nonlinear_arith)
            requires
                0 < len,
                0 < mss,
        ;
        lemma_div_bound(len - 1, mss);
    }
    law_message_roundtrip(data, mss, count as nat, Seq::empty());
}

/// After `una` has been taken in, no segment that it acknowledges is kept. (An `una` half
/// the number circle away from the send buffer says nothing.)
pub proof fn law_una_acknowledges(s: model::KcpState, una: u32)
    requires
        model::send_side_holds(s),
        model::timediff(una, s.snd_una) - model::send_offset(s, s.snd_nxt) >= -0x8000_0000,
    ensures
        forall|i: int|
            0 <= i < model::parse_una(s, una).snd_buf.len() ==> model::timediff(
                una,
                (#[trigger] model::parse_una(s, una).snd_buf[i]).sn,
            ) <= 0,
{
    lemma_una_acknowledges(s, una, s.snd_buf);
}

proof fn lemma_una_acknowledges(
    s: model::KcpState,
    una: u32,
    queue: Seq<model::SegmentState>,
)
    requires
        model::send_offset(s, s.snd_nxt) <= 0xffff,
        model::timediff(una, s.snd_una) - model::send_offset(s, s.snd_nxt) >= -0x8000_0000,
        forall|i: int|
            0 <= i < queue.len() ==> model::send_offset(s, (#[trigger] queue[i]).sn)
                < model::send_offset(s, s.snd_nxt),
        forall|i: int, j: int|
            0 <= i < j < queue.len() ==> model::send_offset(s, (#[trigger] queue[i]).sn)
                < model::send_offset(s, (#[trigger] queue[j]).sn),
    ensures
        forall|i: int|
            0 <= i < model::drop_acked(queue, una).len() ==> model::timediff(
                una,
                (#[trigger] model::drop_acked(queue, una)[i]).sn,
            ) <= 0,
    decreases queue.len(),
{
    if queue.len() > 0 && model::timediff(una, queue[0].sn) > 0 {
        let rest = queue.drop_first();
        assert forall|i: int| 0 <= i < rest.len() implies #[trigger] rest[i] == queue[i + 1] by {}
        lemma_una_acknowledges(s, una, rest);
        assert(model::drop_acked(queue, una) == model::drop_acked(rest, una));
    } else {
        assert(model::drop_acked(queue, una) == queue);
        assert forall|i: int| 0 <= i < queue.len() implies model::timediff(
            una,
            (#[trigger] queue[i]).sn,
        ) <= 0 by {
            assert(model::send_offset(s, queue[0].sn) <= model::send_offset(s, queue[i].sn));
        }
    }
}

/// The receive side holds a part of the peer's `stream` of segments: `taken` of them have
/// been put in order so far, the last ones of which are still queued, and what waits in the
/// reorder buffer is where its serial number says.
pub open spec fn delivers(
    s: model::KcpState,
    stream: spec_fn(int) -> (u8, Seq<u8>),
    taken: int,
) -> bool {
    &&& taken >= s.rcv_queue.len()
    &&& s.rcv_nxt == taken % 0x1_0000_0000
    &&& forall|i: int|
        0 <= i < s.rcv_queue.len() ==> (
            (#[trigger] s.rcv_queue[i]).frg,
            s.rcv_queue[i].data,
        ) == stream(taken - s.rcv_queue.len() + i)
    &&& forall|i: int|
        0 <= i < s.rcv_buf.len() ==> (
            (#[trigger] s.rcv_buf[i]).frg,
            s.rcv_buf[i].data,
        ) == stream(taken + model::recv_offset(s, s.rcv_buf[i].sn))
}

/// Putting segments in order hands on the stream without gap, repetition or exchange.
proof fn lemma_move_buf_delivers(
    s: model::KcpState,
    stream: spec_fn(int) -> (u8, Seq<u8>),
    taken: int,
) -> (more: int)
    requires
        model::recv_side_holds(s),
        delivers(s, stream, taken),
    ensures
        more >= 0,
        model::move_buf(s).rcv_queue.len() == s.rcv_queue.len() + more,
        delivers(model::move_buf(s), stream, taken + more),
    decreases s.rcv_buf.len(),
{
    if s.rcv_buf.len() > 0 && s.rcv_buf[0].sn == s.rcv_nxt && s.rcv_queue.len() < s.rcv_wnd {
        let next = model::KcpState {
            rcv_nxt: s.rcv_nxt.wrapping_add(1),
            rcv_buf: s.rcv_buf.drop_first(),
            rcv_queue: s.rcv_queue.push(s.rcv_buf[0]),
            ..s
        };
        assert(model::recv_offset(s, s.rcv_buf[0].sn) == 0);
        assert forall|i: int| 0 <= i < next.rcv_buf.len() implies {
            &&& model::recv_offset(next, (#[trigger] next.rcv_buf[i]).sn) == model::recv_offset(
                s,
                s.rcv_buf[i + 1].sn,
            ) - 1
            &&& (next.rcv_buf[i].frg, next.rcv_buf[i].data) == stream(
                taken + 1 + model::recv_offset(next, next.rcv_buf[i].sn),
            )
        } by {
            assert(model::recv_offset(s, s.rcv_buf[0].sn) < model::recv_offset(
                s,
                s.rcv_buf[i + 1].sn,
            ));
            assert(next.rcv_buf[i] == s.rcv_buf[i + 1]);
        }
        assert forall|i: int| 0 <= i < next.rcv_queue.len() implies (
            (#[trigger] next.rcv_queue[i]).frg,
            next.rcv_queue[i].data,
        ) == stream(taken + 1 - next.rcv_queue.len() + i) by {
            if i < s.rcv_queue.len() {
                assert(next.rcv_queue[i] == s.rcv_queue[i]);
            }
        }
        assert(delivers(next, stream, taken + 1));
        let more = lemma_move_buf_delivers(next, stream, taken + 1);
        more + 1
    } else {
        0
    }
}

/// Ordered delivery: whatever segments arrive, in whatever order and however often, as long as
/// each one in the window is the one that the peer's stream holds at its serial number, the
/// queue stays an uninterrupted part of that stream.
pub proof fn law_ordered_delivery(
    s: model::KcpState,
    seg: model::SegmentState,
    stream: spec_fn(int) -> (u8, Seq<u8>),
    taken: int,
) -> (more: int)
    requires
        model::recv_side_holds(s),
        delivers(s, stream, taken),
        model::recv_offset(s, seg.sn) < s.rcv_wnd ==> (seg.frg, seg.data) == stream(
            taken + model::recv_offset(s, seg.sn),
        ),
    ensures
        more >= 0,
        model::parse_data(s, seg).rcv_queue.len() == s.rcv_queue.len() + more,
        delivers(model::parse_data(s, seg), stream, taken + more),
{
    lemma_parse_data_holds(s, seg);
    if model::below_window_end(s, seg.sn) && model::timediff(seg.sn, s.rcv_nxt) >= 0 {
        let t = model::KcpState { rcv_buf: model::insert_ordered(s.rcv_buf, seg), ..s };
        lemma_insert_recv_side(s, seg);
        lemma_insert_members(s.rcv_buf, seg);
        assert forall|i: int| 0 <= i < t.rcv_buf.len() implies (
            (#[trigger] t.rcv_buf[i]).frg,
            t.rcv_buf[i].data,
        ) == stream(taken + model::recv_offset(t, t.rcv_buf[i].sn)) by {
            let x = t.rcv_buf[i];
            assert(t.rcv_buf.contains(x));
            if x != seg {
                assert(s.rcv_buf.contains(x));
                let j = choose|j: int| 0 <= j < s.rcv_buf.len() && s.rcv_buf[j] == x;
                assert(s.rcv_buf[j] == x);
            }
        }
        lemma_move_buf_delivers(t, stream, taken)
    } else {
        0
    }
}

/// The reorder buffer gains nothing but the new segment.
pub proof fn lemma_insert_members(queue: Seq<model::SegmentState>, seg: model::SegmentState)
    ensures
        forall|x: model::SegmentState| #[trigger]
            model::insert_ordered(queue, seg).contains(x) ==> x == seg || queue.contains(x),
    decreases queue.len(),
{
    let all = model::insert_ordered(queue, seg);
    if queue.len() > 0 {
        lemma_insert_members(queue.drop_last(), seg);
    }
    assert forall|x: model::SegmentState| #[trigger] all.contains(x) implies x == seg
        || queue.contains(x) by {
        let i = choose|i: int| 0 <= i < all.len() && all[i] == x;
        if queue.len() > 0 && queue.last().sn != seg.sn {
            if model::timediff(seg.sn, queue.last().sn) > 0 {
                if i < queue.len() {
                    assert(queue[i] == x);
                }
            } else {
                let front = model::insert_ordered(queue.drop_last(), seg);
                if i < front.len() {
                    assert(front.contains(front[i]));
                    if x != seg {
                        assert(queue.drop_last().contains(x));
                        let j = choose|j: int|
                            0 <= j < queue.drop_last().len() && queue.drop_last()[j] == x;
                        assert(queue[j] == x);
                    }
                } else {
                    assert(queue[queue.len() - 1] == x);
                }
            }
        }
    }
}

/// Taking a message out of the queue goes on with the stream behind it.
pub proof fn law_recv_continues(
    s: model::KcpState,
    stream: spec_fn(int) -> (u8, Seq<u8>),
    taken: int,
) -> (more: int)
    requires
        model::recv_side_holds(s),
        delivers(s, stream, taken),
    ensures
        more >= 0,
        delivers(model::after_recv(s), stream, taken + more),
        model::after_recv(s).rcv_queue.len() == model::after_message(s.rcv_queue).len() + more,
{
    let k = lemma_after_message_suffix(s.rcv_queue);
    let t = model::KcpState { rcv_queue: model::after_message(s.rcv_queue), ..s };
    assert(model::recv_side_holds(t));
    assert forall|i: int| 0 <= i < t.rcv_queue.len() implies (
        (#[trigger] t.rcv_queue[i]).frg,
        t.rcv_queue[i].data,
    ) == stream(taken - t.rcv_queue.len() + i) by {
        assert(t.rcv_queue[i] == s.rcv_queue[i + k]);
    }
    assert forall|i: int| 0 <= i < t.rcv_buf.len() implies (
        (#[trigger] t.rcv_buf[i]).frg,
        t.rcv_buf[i].data,
    ) == stream(taken + model::recv_offset(t, t.rcv_buf[i].sn)) by {
        assert(model::recv_offset(t, t.rcv_buf[i].sn) == model::recv_offset(s, s.rcv_buf[i].sn));
    }
    let more = lemma_move_buf_delivers(t, stream, taken);
    let moved = model::move_buf(t);
    let end = model::after_recv(s);
    assert forall|i: int| 0 <= i < end.rcv_buf.len() implies model::recv_offset(
        end,
        (#[trigger] end.rcv_buf[i]).sn,
    ) == model::recv_offset(moved, moved.rcv_buf[i].sn) by {}
    more
}

proof fn lemma_after_message_suffix(queue: Seq<model::SegmentState>) -> (k: int)
    ensures
        0 <= k <= queue.len(),
        model::after_message(queue) == queue.skip(k),
    decreases queue.len(),
{
    if queue.len() == 0 {
        assert(queue.skip(0) =~= queue);
        0
    } else if queue[0].frg == 0 {
        assert(queue.skip(1) =~= queue.drop_first());
        1
    } else {
        let k = lemma_after_message_suffix(queue.drop_first());
        assert(queue.drop_first().skip(k) =~= queue.skip(k + 1));
        k + 1
    }
}

} // verus!
