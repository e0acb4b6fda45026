//! Reliable delivery: what has been given to a receiver comes out of it.
use vstd::prelude::*;

use crate::kcp::control::{KcpParams, KCP_CMD_ACK, KCP_CMD_PUSH};
use crate::kcp::delivery;
use crate::kcp::error::Error;
use crate::kcp::laws;
use crate::kcp::model;

verus! {

/// The receiver has segment `i` of the stream: it is among the first `taken`, which have been
/// put in order, or it waits in the reorder buffer.
pub open spec fn has_segment(s: model::KcpState, taken: int, i: int) -> bool {
    i < taken || exists|j: int|
        0 <= j < s.rcv_buf.len() && taken + model::recv_offset(s, (#[trigger] s.rcv_buf[j]).sn) == i
}

/// The receiver has no segment from `limit` on.
pub open spec fn ends_before(s: model::KcpState, taken: int, limit: int) -> bool {
    &&& taken <= limit
    &&& forall|j: int|
        0 <= j < s.rcv_buf.len() ==> taken + model::recv_offset(s, (#[trigger] s.rcv_buf[j]).sn)
            < limit
}

/// No segment that is next in order waits while the queue has room.
pub open spec fn moved_up(s: model::KcpState) -> bool {
    s.rcv_buf.len() > 0 && s.rcv_queue.len() < s.rcv_wnd ==> s.rcv_buf[0].sn != s.rcv_nxt
}

/// `t` has what `s` has, and comes behind it in the stream.
pub open spec fn keeps(
    s: model::KcpState,
    taken: int,
    t: model::KcpState,
    taken_then: int,
) -> bool {
    &&& taken <= taken_then
    &&& t.rcv_nxt == taken_then % 0x1_0000_0000
    &&& t.rcv_wnd == s.rcv_wnd
    &&& forall|i: int| #[trigger]
        has_segment(s, taken, i) ==> has_segment(t, taken_then, i)
    &&& forall|limit: int| #[trigger]
        ends_before(s, taken, limit) ==> ends_before(t, taken_then, limit)
}

/// Moving segments up loses none, and stops only where the next one is missing or the queue
/// is full.
proof fn lemma_move_buf_keeps(s: model::KcpState, taken: int)
    requires
        model::recv_side_holds(s),
        0 <= taken,
        s.rcv_nxt == taken % 0x1_0000_0000,
    ensures
        ({
            let t = model::move_buf(s);
            &&& moved_up(t)
            &&& keeps(s, taken, t, taken + t.rcv_queue.len() - s.rcv_queue.len())
        }),
    decreases s.rcv_buf.len(),
{
    if s.rcv_buf.len() > 0 && s.rcv_buf[0].sn == s.rcv_nxt && s.rcv_queue.len() < s.rcv_wnd {
        let next = model::KcpState {
            rcv_nxt: s.rcv_nxt.wrapping_add(1),
            rcv_buf: s.rcv_buf.drop_first(),
            rcv_queue: s.rcv_queue.push(s.rcv_buf[0]),
            ..s
        };
        assert(model::recv_offset(s, s.rcv_buf[0].sn) == 0);
        assert forall|i: int| 0 <= i < next.rcv_buf.len() implies model::recv_offset(
            next,
            (#[trigger] next.rcv_buf[i]).sn,
        ) == model::recv_offset(s, s.rcv_buf[i + 1].sn) - 1 by {
            assert(model::recv_offset(s, s.rcv_buf[0].sn) < model::recv_offset(
                s,
                s.rcv_buf[i + 1].sn,
            ));
        }
        assert(model::recv_side_holds(next));
        lemma_move_buf_keeps(next, taken + 1);
        assert forall|i: int| #[trigger] has_segment(s, taken, i) implies has_segment(
            next,
            taken + 1,
            i,
        ) by {
            if i > taken {
                let j = choose|j: int|
                    0 <= j < s.rcv_buf.len() && taken + model::recv_offset(
                        s,
                        (#[trigger] s.rcv_buf[j]).sn,
                    ) == i;
                assert(next.rcv_buf[j - 1] == s.rcv_buf[j]);
            }
        }
        assert forall|limit: int| #[trigger] ends_before(s, taken, limit) implies ends_before(
            next,
            taken + 1,
            limit,
        ) by {
            assert(taken + model::recv_offset(s, s.rcv_buf[0].sn) < limit);
            assert forall|j: int| 0 <= j < next.rcv_buf.len() implies taken + 1
                + model::recv_offset(next, (#[trigger] next.rcv_buf[j]).sn) < limit by {
                assert(taken + model::recv_offset(s, s.rcv_buf[j + 1].sn) < limit);
            }
        }
        assert(model::move_buf(s) == model::move_buf(next));
    }
}

/// The reorder buffer loses nothing, and holds the new serial number.
proof fn lemma_insert_keeps(queue: Seq<model::SegmentState>, seg: model::SegmentState)
    ensures
        forall|x: model::SegmentState| #[trigger]
            queue.contains(x) ==> model::insert_ordered(queue, seg).contains(x),
        exists|j: int|
            0 <= j < model::insert_ordered(queue, seg).len() && (#[trigger] model::insert_ordered(
                queue,
                seg,
            )[j]).sn == seg.sn,
    decreases queue.len(),
{
    let all = model::insert_ordered(queue, seg);
    if queue.len() == 0 {
        assert(all[0] == seg);
    } else if queue.last().sn == seg.sn {
        assert(all[queue.len() - 1].sn == seg.sn);
    } else if model::timediff(seg.sn, queue.last().sn) > 0 {
        assert(all[queue.len() as int] == seg);
        assert forall|x: model::SegmentState| #[trigger] queue.contains(x) implies all.contains(
            x,
        ) by {
            let j = choose|j: int| 0 <= j < queue.len() && queue[j] == x;
            assert(all[j] == x);
        }
    } else {
        let front = model::insert_ordered(queue.drop_last(), seg);
        lemma_insert_keeps(queue.drop_last(), seg);
        let at = choose|j: int| 0 <= j < front.len() && (#[trigger] front[j]).sn == seg.sn;
        assert(all[at] == front[at]);
        assert forall|x: model::SegmentState| #[trigger] queue.contains(x) implies all.contains(
            x,
        ) by {
            let j = choose|j: int| 0 <= j < queue.len() && queue[j] == x;
            if j < queue.len() - 1 {
                assert(queue.drop_last()[j] == x);
                assert(queue.drop_last().contains(x));
                assert(front.contains(x));
                let i = choose|i: int| 0 <= i < front.len() && front[i] == x;
                assert(all[i] == x);
            } else {
                assert(all[front.len() as int] == x);
            }
        }
    }
}

/// A segment in the window is kept.
proof fn lemma_parse_data_keeps(s: model::KcpState, seg: model::SegmentState, taken: int)
    requires
        model::recv_side_holds(s),
        0 <= taken,
        s.rcv_nxt == taken % 0x1_0000_0000,
    ensures
        ({
            let t = model::parse_data(s, seg);
            let taken_then = taken + t.rcv_queue.len() - s.rcv_queue.len();
            let index = taken + model::recv_offset(s, seg.sn);
            &&& moved_up(s) ==> moved_up(t)
            &&& taken <= taken_then
            &&& t.rcv_nxt == taken_then % 0x1_0000_0000
            &&& t.rcv_wnd == s.rcv_wnd
            &&& forall|i: int| #[trigger]
                has_segment(s, taken, i) ==> has_segment(t, taken_then, i)
            &&& model::recv_offset(s, seg.sn) < s.rcv_wnd ==> has_segment(t, taken_then, index)
            &&& forall|limit: int| #[trigger]
                ends_before(s, taken, limit) && (model::recv_offset(s, seg.sn) < s.rcv_wnd
                    ==> index < limit) ==> ends_before(t, taken_then, limit)
        }),
{
    let offset = model::recv_offset(s, seg.sn);
    let index = taken + offset;
    if model::below_window_end(s, seg.sn) && model::timediff(seg.sn, s.rcv_nxt) >= 0 {
        assert(offset < s.rcv_wnd);
        let t = model::KcpState { rcv_buf: model::insert_ordered(s.rcv_buf, seg), ..s };
        assert(model::recv_side_holds(t)) by {
            laws::lemma_insert_recv_side(s, seg);
        }
        lemma_insert_keeps(s.rcv_buf, seg);
        laws::lemma_insert_members(s.rcv_buf, seg);
        lemma_move_buf_keeps(t, taken);
        assert forall|sn: u32| #[trigger] model::recv_offset(t, sn) == model::recv_offset(
            s,
            sn,
        ) by {}
        assert forall|i: int| #[trigger] has_segment(s, taken, i) implies has_segment(
            t,
            taken,
            i,
        ) by {
            if i >= taken {
                let j = choose|j: int|
                    0 <= j < s.rcv_buf.len() && taken + model::recv_offset(
                        s,
                        (#[trigger] s.rcv_buf[j]).sn,
                    ) == i;
                assert(s.rcv_buf.contains(s.rcv_buf[j]));
                assert(t.rcv_buf.contains(s.rcv_buf[j]));
                let at = choose|at: int|
                    0 <= at < t.rcv_buf.len() && t.rcv_buf[at] == s.rcv_buf[j];
                assert(taken + model::recv_offset(t, t.rcv_buf[at].sn) == i);
            }
        }
        assert(has_segment(t, taken, index)) by {
            let at = choose|at: int|
                0 <= at < t.rcv_buf.len() && (#[trigger] t.rcv_buf[at]).sn == seg.sn;
            assert(taken + model::recv_offset(t, t.rcv_buf[at].sn) == index);
        }
        assert forall|limit: int| #[trigger] ends_before(s, taken, limit) && index
            < limit implies ends_before(t, taken, limit) by {
            assert forall|j: int| 0 <= j < t.rcv_buf.len() implies taken + model::recv_offset(
                t,
                (#[trigger] t.rcv_buf[j]).sn,
            ) < limit by {
                let x = t.rcv_buf[j];
                assert(t.rcv_buf.contains(x));
                if x != seg {
                    assert(s.rcv_buf.contains(x));
                    let i = choose|i: int| 0 <= i < s.rcv_buf.len() && s.rcv_buf[i] == x;
                    assert(taken + model::recv_offset(s, s.rcv_buf[i].sn) < limit);
                }
            }
        }
        assert(model::parse_data(s, seg) == model::move_buf(t));
    } else {
        assert(offset >= s.rcv_wnd);
    }
}

/// The packet holds a data segment with this serial number, before anything that cannot be
/// taken.
pub open spec fn gives(conv: u64, bytes: Seq<u8>, sn: u32) -> bool
    decreases bytes.len(),
{
    bytes.len() >= 28 && model::segment_error(conv, bytes) is None && {
        let seg = model::decode_segment(bytes);
        ||| seg.cmd == KCP_CMD_PUSH && seg.sn == sn
        ||| gives(conv, bytes.skip(28 + model::data_len_of(bytes)), sn)
    }
}

/// The serial number of segment `i`.
pub open spec fn serial(i: int) -> u32 {
    (i % 0x1_0000_0000) as u32
}

/// The index lies on the half of the number circle around `base`.
pub open spec fn near(i: int, base: int) -> bool {
    0 <= i && base - 0x8000_0000 <= i < base + 0x8000_0000
}

/// The serial number is that of a segment before `limit`.
pub open spec fn lies_before(sn: u32, base: int, limit: int) -> bool {
    exists|i: int| i < limit && #[trigger] near(i, base) && serial(i) == sn
}

/// All data segments of the packet lie before `limit`.
pub open spec fn gives_before(conv: u64, bytes: Seq<u8>, base: int, limit: int) -> bool {
    forall|sn: u32| #[trigger] gives(conv, bytes, sn) ==> lies_before(sn, base, limit)
}

/// `t` has what `s` has, where both start at `base`.
pub open spec fn carries_on(s: model::KcpState, t: model::KcpState, base: int) -> bool {
    &&& s.rcv_queue.len() <= t.rcv_queue.len()
    &&& t.rcv_nxt == (base + t.rcv_queue.len()) % 0x1_0000_0000
    &&& t.rcv_wnd == s.rcv_wnd
    &&& forall|i: int|
        has_segment(s, base + s.rcv_queue.len(), i) ==> #[trigger] has_segment(
            t,
            base + t.rcv_queue.len(),
            i,
        )
}

/// What a receiver has depends on its reorder buffer alone.
pub proof fn lemma_same_segments(s: model::KcpState, t: model::KcpState, taken: int)
    requires
        s.rcv_buf == t.rcv_buf,
        s.rcv_nxt == t.rcv_nxt,
    ensures
        forall|i: int|
            #![trigger has_segment(s, taken, i)]
            #![trigger has_segment(t, taken, i)]
            has_segment(s, taken, i) == has_segment(t, taken, i),
        forall|limit: int|
            #![trigger ends_before(s, taken, limit)]
            #![trigger ends_before(t, taken, limit)]
            ends_before(s, taken, limit) == ends_before(t, taken, limit),
{
    assert forall|sn: u32| #[trigger] model::recv_offset(t, sn) == model::recv_offset(s, sn) by {}
    assert forall|i: int| #[trigger] has_segment(s, taken, i) == has_segment(t, taken, i) by {
        if has_segment(s, taken, i) && i >= taken {
            let j = choose|j: int|
                0 <= j < s.rcv_buf.len() && taken + model::recv_offset(
                    s,
                    (#[trigger] s.rcv_buf[j]).sn,
                ) == i;
            assert(taken + model::recv_offset(t, t.rcv_buf[j].sn) == i);
        }
        if has_segment(t, taken, i) && i >= taken {
            let j = choose|j: int|
                0 <= j < t.rcv_buf.len() && taken + model::recv_offset(
                    t,
                    (#[trigger] t.rcv_buf[j]).sn,
                ) == i;
            assert(taken + model::recv_offset(s, s.rcv_buf[j].sn) == i);
        }
    }
    assert forall|limit: int| #[trigger] ends_before(s, taken, limit) == ends_before(
        t,
        taken,
        limit,
    ) by {
        if ends_before(s, taken, limit) {
            assert forall|j: int| 0 <= j < t.rcv_buf.len() implies taken + model::recv_offset(
                t,
                (#[trigger] t.rcv_buf[j]).sn,
            ) < limit by {
                assert(taken + model::recv_offset(s, s.rcv_buf[j].sn) < limit);
            }
        }
        if ends_before(t, taken, limit) {
            assert forall|j: int| 0 <= j < s.rcv_buf.len() implies taken + model::recv_offset(
                s,
                (#[trigger] s.rcv_buf[j]).sn,
            ) < limit by {
                assert(taken + model::recv_offset(t, t.rcv_buf[j].sn) < limit);
            }
        }
    }
}

/// A serial number tells how far a segment lies behind the next one.
proof fn lemma_offset_of(sn: u32, nxt: u32, taken: int, i: int)
    requires
        0 <= taken <= i < taken + 0x1_0000_0000,
        nxt == taken % 0x1_0000_0000,
        serial(i) == sn,
    ensures
        sn.wrapping_sub(nxt) == i - taken,
{
}

/// A segment near the window is the one that its serial number says.
proof fn lemma_index_of(sn: u32, nxt: u32, taken: int, base: int, i: int)
    requires
        0 <= base <= taken <= base + 0xffff,
        nxt == taken % 0x1_0000_0000,
        near(i, base),
        serial(i) == sn,
        sn.wrapping_sub(nxt) < 0xffff,
    ensures
        i == taken + sn.wrapping_sub(nxt),
{
}

/// A data segment of the stream is kept where it is in the window.
proof fn lemma_push_keeps(s: model::KcpState, seg: model::SegmentState, base: int)
    requires
        model::recv_side_holds(s),
        0 <= base,
        s.rcv_nxt == (base + s.rcv_queue.len()) % 0x1_0000_0000,
    ensures
        ({
            let t = model::parse_data(s, seg);
            let taken = base + s.rcv_queue.len();
            &&& moved_up(s) ==> moved_up(t)
            &&& carries_on(s, t, base)
            &&& forall|i: int|
                near(i, base) && serial(i) == seg.sn && i < taken + s.rcv_wnd
                    ==> #[trigger] has_segment(t, base + t.rcv_queue.len(), i)
            &&& forall|limit: int|
                ends_before(s, taken, limit) && lies_before(seg.sn, base, limit)
                    ==> #[trigger] ends_before(t, base + t.rcv_queue.len(), limit)
        }),
{
    let taken = base + s.rcv_queue.len();
    let t = model::parse_data(s, seg);
    let taken_then = base + t.rcv_queue.len();
    let offset = model::recv_offset(s, seg.sn);
    lemma_parse_data_keeps(s, seg, taken);
    assert forall|i: int|
        near(i, base) && serial(i) == seg.sn && i < taken + s.rcv_wnd implies #[trigger]
    has_segment(t, taken_then, i) by {
        if i >= taken {
            lemma_offset_of(seg.sn, s.rcv_nxt, taken, i);
        }
    }
    assert forall|limit: int|
        ends_before(s, taken, limit) && lies_before(seg.sn, base, limit) implies #[trigger]
    ends_before(t, taken_then, limit) by {
        let i = choose|i: int| i < limit && #[trigger] near(i, base) && serial(i) == seg.sn;
        if offset < s.rcv_wnd {
            lemma_index_of(seg.sn, s.rcv_nxt, taken, base, i);
        }
    }
}

/// One segment of a packet is taken: everything stays, and a data segment in the window is
/// there.
proof fn lemma_apply_keeps(scan: model::InputScan, seg: model::SegmentState, base: int)
    requires
        model::well_formed(scan.state),
        0 <= base,
        scan.state.rcv_nxt == (base + scan.state.rcv_queue.len()) % 0x1_0000_0000,
    ensures
        ({
            let s = scan.state;
            let t = model::apply_segment(scan, seg).state;
            let taken = base + s.rcv_queue.len();
            &&& moved_up(s) ==> moved_up(t)
            &&& carries_on(s, t, base)
            &&& forall|i: int|
                seg.cmd == KCP_CMD_PUSH && near(i, base) && serial(i) == seg.sn && i < taken
                    + s.rcv_wnd ==> #[trigger] has_segment(t, base + t.rcv_queue.len(), i)
            &&& forall|limit: int|
                ends_before(s, taken, limit) && (seg.cmd == KCP_CMD_PUSH ==> lies_before(
                    seg.sn,
                    base,
                    limit,
                )) ==> #[trigger] ends_before(t, base + t.rcv_queue.len(), limit)
        }),
{
    let start = scan.state;
    let taken = base + start.rcv_queue.len();
    let t = model::apply_segment(scan, seg).state;
    let s = model::parse_una(model::KcpState { rmt_wnd: seg.wnd, ..start }, seg.una);
    if seg.cmd == KCP_CMD_PUSH && model::below_window_end(s, seg.sn) {
        let acking = model::KcpState { acklist: s.acklist.push((seg.sn, seg.ts)), ..s };
        lemma_same_segments(start, acking, taken);
        assert(model::recv_side_holds(acking)) by {
            assert forall|sn: u32| #[trigger] model::recv_offset(acking, sn)
                == model::recv_offset(start, sn) by {}
        }
        lemma_push_keeps(acking, seg, base);
    } else {
        assert(t.rcv_queue == start.rcv_queue && t.rcv_buf == start.rcv_buf && t.rcv_nxt
            == start.rcv_nxt && t.rcv_wnd == start.rcv_wnd);
        lemma_same_segments(start, t, taken);
        assert forall|i: int|
            seg.cmd == KCP_CMD_PUSH && near(i, base) && serial(i) == seg.sn && i < taken
                + start.rcv_wnd implies #[trigger] has_segment(t, taken, i) by {
            if i >= taken {
                lemma_offset_of(seg.sn, s.rcv_nxt, taken, i);
            }
        }
    }
}

proof fn lemma_scan_keeps(scan: model::InputScan, bytes: Seq<u8>, base: int)
    requires
        model::well_formed(scan.state),
        0 <= base,
        scan.state.rcv_nxt == (base + scan.state.rcv_queue.len()) % 0x1_0000_0000,
    ensures
        ({
            let s = scan.state;
            let t = model::scan_segments(scan, bytes).0.state;
            &&& moved_up(s) ==> moved_up(t)
            &&& carries_on(s, t, base)
            &&& forall|i: int|
                gives(s.conv, bytes, serial(i)) && near(i, base) && i < base + s.rcv_wnd
                    ==> #[trigger] has_segment(t, base + t.rcv_queue.len(), i)
            &&& forall|limit: int|
                ends_before(s, base + s.rcv_queue.len(), limit) && gives_before(
                    s.conv,
                    bytes,
                    base,
                    limit,
                ) ==> #[trigger] ends_before(t, base + t.rcv_queue.len(), limit)
        }),
    decreases bytes.len(),
{
    let s = scan.state;
    let t = model::scan_segments(scan, bytes).0.state;
    if bytes.len() >= 28 && model::segment_error(s.conv, bytes) is None {
        let seg = model::decode_segment(bytes);
        let rest = bytes.skip(28 + model::data_len_of(bytes));
        let next = model::apply_segment(scan, seg);
        lemma_apply_keeps(scan, seg, base);
        laws::lemma_apply_segment_well_formed(scan, seg);
        lemma_scan_keeps(next, rest, base);
        assert forall|i: int|
            gives(s.conv, bytes, serial(i)) && near(i, base) && i < base + s.rcv_wnd implies
        #[trigger] has_segment(t, base + t.rcv_queue.len(), i) by {
            if seg.cmd == KCP_CMD_PUSH && seg.sn == serial(i) {
                assert(has_segment(next.state, base + next.state.rcv_queue.len(), i));
            } else {
                assert(gives(s.conv, rest, serial(i)));
            }
        }
        assert forall|limit: int|
            ends_before(s, base + s.rcv_queue.len(), limit) && gives_before(
                s.conv,
                bytes,
                base,
                limit,
            ) implies #[trigger] ends_before(t, base + t.rcv_queue.len(), limit) by {
            if seg.cmd == KCP_CMD_PUSH {
                assert(gives(s.conv, bytes, seg.sn));
            }
            assert(gives_before(s.conv, rest, base, limit)) by {
                assert forall|sn: u32| #[trigger] gives(s.conv, rest, sn) implies lies_before(
                    sn,
                    base,
                    limit,
                ) by {
                    assert(gives(s.conv, bytes, sn));
                }
            }
            assert(ends_before(next.state, base + next.state.rcv_queue.len(), limit));
        }
    }
}

/// Taking in a packet loses nothing that the receiver has, and keeps every data segment in
/// the packet that lies in the window. `base` is the index of the first segment that has not
/// been handed on.
pub proof fn law_input_keeps_every_segment(
    s: model::KcpState,
    current: u32,
    bytes: Seq<u8>,
    base: int,
)
    requires
        model::well_formed(s),
        0 <= base,
        s.rcv_nxt == (base + s.rcv_queue.len()) % 0x1_0000_0000,
    ensures
        ({
            let t = model::input_at(s, current, bytes).0;
            &&& moved_up(s) ==> moved_up(t)
            &&& carries_on(s, t, base)
            &&& forall|i: int|
                gives(s.conv, bytes, serial(i)) && near(i, base) && i < base + s.rcv_wnd
                    ==> #[trigger] has_segment(t, base + t.rcv_queue.len(), i)
            &&& forall|limit: int|
                ends_before(s, base + s.rcv_queue.len(), limit) && gives_before(
                    s.conv,
                    bytes,
                    base,
                    limit,
                ) ==> #[trigger] ends_before(t, base + t.rcv_queue.len(), limit)
        }),
{
    let now = model::KcpState { current, ..s };
    let t = model::input_at(s, current, bytes).0;
    laws::lemma_same_queues(s, now);
    lemma_same_segments(s, now, base + s.rcv_queue.len());
    if bytes.len() >= 28 {
        let start = model::InputScan { state: now, acked: false, max_ack: 0, latest_ts: 0 };
        lemma_scan_keeps(start, bytes, base);
        let scan = model::scan_segments(start, bytes).0;
        assert(t.rcv_queue == scan.state.rcv_queue && t.rcv_buf == scan.state.rcv_buf && t.rcv_nxt
            == scan.state.rcv_nxt && t.rcv_wnd == scan.state.rcv_wnd);
        lemma_same_segments(scan.state, t, base + t.rcv_queue.len());
    }
}

/// Handing on a message loses nothing else.
proof fn lemma_recv_keeps(s: model::KcpState, taken: int)
    requires
        model::well_formed(s),
        0 <= taken,
        s.rcv_nxt == taken % 0x1_0000_0000,
    ensures
        ({
            let t = model::after_recv(s);
            let more = t.rcv_queue.len() - model::after_message(s.rcv_queue).len();
            &&& moved_up(t)
            &&& keeps(s, taken, t, taken + more)
        }),
{
    laws::lemma_after_message_len(s.rcv_queue);
    let emptied = model::KcpState { rcv_queue: model::after_message(s.rcv_queue), ..s };
    assert(model::recv_side_holds(emptied)) by {
        assert forall|sn: u32| #[trigger] model::recv_offset(emptied, sn) == model::recv_offset(
            s,
            sn,
        ) by {}
    }
    lemma_same_segments(s, emptied, taken);
    lemma_move_buf_keeps(emptied, taken);
    let moved = model::move_buf(emptied);
    let t = model::after_recv(s);
    let more = t.rcv_queue.len() - model::after_message(s.rcv_queue).len();
    lemma_same_segments(moved, t, taken + more);
}

/// Nothing is left behind: at any time, no segment that is next in order waits while the
/// queue has room. It is so from the start, and taking in packets, handing on messages,
/// sending and updating keep it so.
pub proof fn law_receiver_is_moved_up(
    s: model::KcpState,
    conv: u64,
    params: KcpParams,
    current: u32,
    bytes: Seq<u8>,
)
    requires
        model::well_formed(s),
        moved_up(s),
    ensures
        moved_up(model::init(conv, params)),
        moved_up(model::input_at(s, current, bytes).0),
        moved_up(model::after_recv(s)),
        moved_up(model::send(s, bytes).0),
        moved_up(model::flushed(s)),
        moved_up(model::update(s, current)),
{
    let base = s.rcv_nxt as int + 0x1_0000_0000 - s.rcv_queue.len();
    law_input_keeps_every_segment(s, current, bytes, base);
    lemma_recv_keeps(s, s.rcv_nxt as int);
    laws::lemma_flushed_frame(s);
    laws::lemma_update_frame(s, current);
}

/// The receiver has all segments of message `k`, and its window has room for them.
pub open spec fn has_message(
    s: model::KcpState,
    messages: spec_fn(int) -> Seq<u8>,
    mss: int,
    k: int,
    taken: int,
) -> bool {
    &&& delivery::count_of(messages(k), mss) <= s.rcv_wnd
    &&& forall|i: int|
        delivery::first_of(messages, mss, k) <= i < delivery::first_of(messages, mss, k + 1)
            ==> #[trigger] has_segment(s, taken, i)
}

/// Once a receiver has all segments of the next message, in whatever order they came, it
/// hands the message on.
pub proof fn law_complete_message_is_received(
    s: model::KcpState,
    stream: spec_fn(int) -> (u8, Seq<u8>),
    messages: spec_fn(int) -> Seq<u8>,
    mss: int,
    k: int,
)
    requires
        model::well_formed(s),
        moved_up(s),
        delivery::carries(stream, messages, mss),
        delivery::received_up_to(s, stream, messages, mss, k),
        has_message(
            s,
            messages,
            mss,
            k,
            delivery::first_of(messages, mss, k) + s.rcv_queue.len(),
        ),
    ensures
        model::peek(s) == Ok::<Seq<u8>, Error>(messages(k)),
        delivery::received_up_to(model::after_recv(s), stream, messages, mss, k + 1),
{
    let base = delivery::first_of(messages, mss, k);
    let taken = base + s.rcv_queue.len();
    let message = messages(k);
    let count = delivery::count_of(message, mss);
    assert(delivery::holds_message(stream, messages, mss, k));
    assert(delivery::first_of(messages, mss, k + 1) == base + count);
    if s.rcv_queue.len() < count {
        assert(has_segment(s, taken, taken));
        let j = choose|j: int|
            0 <= j < s.rcv_buf.len() && taken + model::recv_offset(
                s,
                (#[trigger] s.rcv_buf[j]).sn,
            ) == taken;
        assert(model::recv_offset(s, s.rcv_buf[j].sn) == 0);
        if j > 0 {
            assert(model::recv_offset(s, s.rcv_buf[0].sn) < model::recv_offset(
                s,
                s.rcv_buf[j].sn,
            ));
        }
        assert(s.rcv_buf[0].sn == s.rcv_nxt);
    }
    let all = model::fragments(message, mss, count as nat);
    laws::lemma_fragments_fit(message, mss, count as nat);
    assert(all[0].frg == count - 1) by {
        let size = model::min(mss, message.len() as int);
        assert(all[0] == model::queued(message.take(size), (count - 1) as u8));
    }
    assert(delivery::piece(s.rcv_queue[0]) == stream(base + 0));
    assert(stream(base + 0) == delivery::piece(all[0]));
    delivery::law_next_message_is_received(s, stream, messages, mss, k);
}

/// The receiver after these packets, each with the time at which it comes.
pub open spec fn inputs(s: model::KcpState, packets: Seq<(u32, Seq<u8>)>) -> model::KcpState
    decreases packets.len(),
{
    if packets.len() == 0 {
        s
    } else {
        let (current, bytes) = packets.last();
        model::input_at(inputs(s, packets.drop_last()), current, bytes).0
    }
}

/// One of the packets holds segment `i`.
pub open spec fn some_gives(conv: u64, packets: Seq<(u32, Seq<u8>)>, i: int) -> bool {
    exists|p: int| 0 <= p < packets.len() && gives(conv, (#[trigger] packets[p]).1, serial(i))
}

/// The receiver after `n` messages have been handed on.
pub open spec fn handed_on(s: model::KcpState, n: nat) -> model::KcpState
    decreases n,
{
    if n == 0 {
        s
    } else {
        model::after_recv(handed_on(s, (n - 1) as nat))
    }
}

proof fn lemma_first_of_grows(messages: spec_fn(int) -> Seq<u8>, mss: int, k: int, m: int)
    requires
        0 < mss,
        0 <= k <= m,
    ensures
        0 <= delivery::first_of(messages, mss, k) <= delivery::first_of(messages, mss, m),
    decreases m,
{
    if m > 0 {
        if k < m {
            lemma_first_of_grows(messages, mss, k, m - 1);
        } else {
            lemma_first_of_grows(messages, mss, k - 1, k - 1);
        }
    }
}

/// The packets are taken one after the other.
proof fn lemma_inputs_keep(
    s: model::KcpState,
    packets: Seq<(u32, Seq<u8>)>,
    stream: spec_fn(int) -> (u8, Seq<u8>),
    messages: spec_fn(int) -> Seq<u8>,
    mss: int,
    k: int,
)
    requires
        model::well_formed(s),
        moved_up(s),
        0 < mss,
        delivery::received_up_to(s, stream, messages, mss, k),
        forall|p: int|
            0 <= p < packets.len() ==> delivery::all_genuine(
                (#[trigger] packets[p]).1,
                stream,
                delivery::first_of(messages, mss, k),
            ),
    ensures
        ({
            let base = delivery::first_of(messages, mss, k);
            let t = inputs(s, packets);
            &&& model::well_formed(t)
            &&& moved_up(t)
            &&& laws::same_frame(s, t)
            &&& delivery::received_up_to(t, stream, messages, mss, k)
            &&& carries_on(s, t, base)
            &&& forall|i: int|
                some_gives(s.conv, packets, i) && near(i, base) && i < base + s.rcv_wnd
                    ==> #[trigger] has_segment(t, base + t.rcv_queue.len(), i)
            &&& forall|limit: int|
                ends_before(s, base + s.rcv_queue.len(), limit) && (forall|p: int|
                    0 <= p < packets.len() ==> gives_before(
                        s.conv,
                        (#[trigger] packets[p]).1,
                        base,
                        limit,
                    )) ==> #[trigger] ends_before(t, base + t.rcv_queue.len(), limit)
        }),
    decreases packets.len(),
{
    let base = delivery::first_of(messages, mss, k);
    lemma_first_of_grows(messages, mss, k, k);
    if packets.len() > 0 {
        let front = packets.drop_last();
        let (current, bytes) = packets.last();
        assert forall|p: int| 0 <= p < front.len() implies #[trigger] front[p] == packets[p] by {}
        lemma_inputs_keep(s, front, stream, messages, mss, k);
        let u = inputs(s, front);
        let t = inputs(s, packets);
        assert(packets[packets.len() - 1].1 == bytes);
        delivery::law_input_keeps_the_stream(u, current, bytes, stream, messages, mss, k);
        law_input_keeps_every_segment(u, current, bytes, base);
        let now = model::KcpState { current, ..u };
        laws::lemma_same_queues(u, now);
        laws::lemma_input_well_formed(now, bytes);
        laws::lemma_input_frame(now, bytes);
        assert forall|i: int|
            some_gives(s.conv, packets, i) && near(i, base) && i < base + s.rcv_wnd implies
        #[trigger] has_segment(t, base + t.rcv_queue.len(), i) by {
            let p = choose|p: int|
                0 <= p < packets.len() && gives(
                    s.conv,
                    (#[trigger] packets[p]).1,
                    serial(i),
                );
            if p < front.len() {
                assert(gives(s.conv, front[p].1, serial(i)));
                assert(some_gives(s.conv, front, i));
                assert(has_segment(u, base + u.rcv_queue.len(), i));
            }
        }
        assert forall|limit: int|
            ends_before(s, base + s.rcv_queue.len(), limit) && (forall|p: int|
                0 <= p < packets.len() ==> gives_before(
                    s.conv,
                    (#[trigger] packets[p]).1,
                    base,
                    limit,
                )) implies #[trigger] ends_before(t, base + t.rcv_queue.len(), limit) by {
            assert forall|p: int| 0 <= p < front.len() implies gives_before(
                s.conv,
                (#[trigger] front[p]).1,
                base,
                limit,
            ) by {
                assert(gives_before(s.conv, packets[p].1, base, limit));
            }
            assert(ends_before(u, base + u.rcv_queue.len(), limit));
            assert(gives_before(s.conv, packets[packets.len() - 1].1, base, limit));
        }
    }
}

/// A receiver that has all segments up to message `m` hands these messages on.
pub open spec fn has_all(
    s: model::KcpState,
    messages: spec_fn(int) -> Seq<u8>,
    mss: int,
    k: int,
    m: int,
) -> bool {
    let base = delivery::first_of(messages, mss, k);
    let end = delivery::first_of(messages, mss, m);
    &&& end - base <= s.rcv_wnd
    &&& forall|i: int|
        base <= i < end ==> #[trigger] has_segment(s, base + s.rcv_queue.len(), i)
}

/// One message is handed on, and everything behind it is still there.
pub proof fn lemma_recv_step(
    s: model::KcpState,
    stream: spec_fn(int) -> (u8, Seq<u8>),
    messages: spec_fn(int) -> Seq<u8>,
    mss: int,
    k: int,
)
    requires
        model::well_formed(s),
        moved_up(s),
        delivery::carries(stream, messages, mss),
        delivery::received_up_to(s, stream, messages, mss, k),
        model::peek(s) is Ok,
    ensures
        ({
            let t = model::after_recv(s);
            let base = delivery::first_of(messages, mss, k);
            let next = delivery::first_of(messages, mss, k + 1);
            &&& model::peek(s) == Ok::<Seq<u8>, Error>(messages(k))
            &&& model::well_formed(t)
            &&& moved_up(t)
            &&& delivery::received_up_to(t, stream, messages, mss, k + 1)
            &&& t.rcv_wnd == s.rcv_wnd
            &&& forall|i: int|
                has_segment(s, base + s.rcv_queue.len(), i) ==> #[trigger] has_segment(
                    t,
                    next + t.rcv_queue.len(),
                    i,
                )
            &&& forall|limit: int|
                ends_before(s, base + s.rcv_queue.len(), limit) ==> #[trigger] ends_before(
                    t,
                    next + t.rcv_queue.len(),
                    limit,
                )
        }),
{
    let base = delivery::first_of(messages, mss, k);
    let next = delivery::first_of(messages, mss, k + 1);
    let taken = base + s.rcv_queue.len();
    let t = model::after_recv(s);
    lemma_first_of_grows(messages, mss, k, k);
    delivery::law_next_message_is_received(s, stream, messages, mss, k);
    delivery::lemma_message_leaves(s, stream, messages, mss, k);
    laws::lemma_after_recv_well_formed(s);
    lemma_recv_keeps(s, taken);
    let more = t.rcv_queue.len() - model::after_message(s.rcv_queue).len();
    assert(taken + more == next + t.rcv_queue.len());
}

/// The messages that a receiver has whole are handed on one after the other.
pub proof fn lemma_all_handed_on(
    s: model::KcpState,
    stream: spec_fn(int) -> (u8, Seq<u8>),
    messages: spec_fn(int) -> Seq<u8>,
    mss: int,
    k: int,
    m: int,
    n: nat,
)
    requires
        model::well_formed(s),
        moved_up(s),
        delivery::carries(stream, messages, mss),
        delivery::received_up_to(s, stream, messages, mss, k),
        k + n <= m,
        has_all(s, messages, mss, k, m),
    ensures
        ({
            let t = handed_on(s, n);
            let base = delivery::first_of(messages, mss, k);
            let next = delivery::first_of(messages, mss, k + n);
            &&& model::well_formed(t)
            &&& moved_up(t)
            &&& delivery::received_up_to(t, stream, messages, mss, k + n)
            &&& has_all(t, messages, mss, k + n, m)
            &&& k + n < m ==> model::peek(t) == Ok::<Seq<u8>, Error>(messages(k + n))
            &&& forall|limit: int|
                ends_before(s, base + s.rcv_queue.len(), limit) ==> #[trigger] ends_before(
                    t,
                    next + t.rcv_queue.len(),
                    limit,
                )
        }),
    decreases n,
{
    let t = handed_on(s, n);
    if n > 0 {
        let u = handed_on(s, (n - 1) as nat);
        let at = k + n - 1;
        lemma_all_handed_on(s, stream, messages, mss, k, m, (n - 1) as nat);
        lemma_recv_step(u, stream, messages, mss, at);
        lemma_first_of_grows(messages, mss, at, at + 1);
        let here = delivery::first_of(messages, mss, at);
        let next = delivery::first_of(messages, mss, at + 1);
        assert forall|i: int|
            next <= i < delivery::first_of(messages, mss, m) implies #[trigger] has_segment(
            t,
            next + t.rcv_queue.len(),
            i,
        ) by {
            assert(has_segment(u, here + u.rcv_queue.len(), i));
        }
    }
    if k + n < m {
        let base = delivery::first_of(messages, mss, k + n);
        lemma_first_of_grows(messages, mss, k + n, k + n);
        lemma_first_of_grows(messages, mss, k + n + 1, m);
        assert(delivery::first_of(messages, mss, k + n + 1) == base + delivery::count_of(
            messages(k + n),
            mss,
        ));
        law_complete_message_is_received(t, stream, messages, mss, k + n);
    }
}

/// Reliable delivery: once all segments of the messages from `k` up to `m` have been given to
/// a receiver, in whatever order, however often and in however many packets, it hands on
/// these messages, byte for byte and in order. Where nothing else has been given, nothing is
/// left then. The messages fit the receive window together.
pub proof fn law_every_message_arrives(
    s: model::KcpState,
    packets: Seq<(u32, Seq<u8>)>,
    stream: spec_fn(int) -> (u8, Seq<u8>),
    messages: spec_fn(int) -> Seq<u8>,
    mss: int,
    k: int,
    m: int,
)
    requires
        model::well_formed(s),
        moved_up(s),
        delivery::carries(stream, messages, mss),
        delivery::received_up_to(s, stream, messages, mss, k),
        k <= m,
        delivery::first_of(messages, mss, m) - delivery::first_of(messages, mss, k) <= s.rcv_wnd,
        forall|p: int|
            0 <= p < packets.len() ==> delivery::all_genuine(
                (#[trigger] packets[p]).1,
                stream,
                delivery::first_of(messages, mss, k),
            ),
        forall|i: int|
            delivery::first_of(messages, mss, k) <= i < delivery::first_of(messages, mss, m)
                ==> #[trigger] some_gives(s.conv, packets, i) || has_segment(
                s,
                delivery::first_of(messages, mss, k) + s.rcv_queue.len(),
                i,
            ),
    ensures
        ({
            let t = inputs(s, packets);
            let base = delivery::first_of(messages, mss, k);
            let end = delivery::first_of(messages, mss, m);
            &&& forall|n: nat|
                k + n < m ==> model::peek(#[trigger] handed_on(t, n)) == Ok::<Seq<u8>, Error>(
                    messages(k + n),
                )
            &&& delivery::received_up_to(
                handed_on(t, (m - k) as nat),
                stream,
                messages,
                mss,
                m,
            )
            &&& ends_before(s, base + s.rcv_queue.len(), end) && (forall|p: int|
                0 <= p < packets.len() ==> gives_before(
                    s.conv,
                    (#[trigger] packets[p]).1,
                    base,
                    end,
                )) ==> model::peek(handed_on(t, (m - k) as nat)) == Err::<Seq<u8>, Error>(
                Error::RecvQueueEmpty,
            )
        }),
{
    let t = inputs(s, packets);
    let base = delivery::first_of(messages, mss, k);
    let end = delivery::first_of(messages, mss, m);
    lemma_first_of_grows(messages, mss, k, m);
    lemma_inputs_keep(s, packets, stream, messages, mss, k);
    assert(has_all(t, messages, mss, k, m)) by {
        assert forall|i: int| base <= i < end implies #[trigger] has_segment(
            t,
            base + t.rcv_queue.len(),
            i,
        ) by {
            if some_gives(s.conv, packets, i) {
                assert(near(i, base));
            }
        }
    }
    assert forall|n: nat| k + n < m implies model::peek(#[trigger] handed_on(t, n)) == Ok::<
        Seq<u8>,
        Error,
    >(messages(k + n)) by {
        lemma_all_handed_on(t, stream, messages, mss, k, m, n);
    }
    lemma_all_handed_on(t, stream, messages, mss, k, m, (m - k) as nat);
    let last = handed_on(t, (m - k) as nat);
    if ends_before(s, base + s.rcv_queue.len(), end) && (forall|p: int|
        0 <= p < packets.len() ==> gives_before(s.conv, (#[trigger] packets[p]).1, base, end)) {
        assert(ends_before(t, base + t.rcv_queue.len(), end));
        assert(ends_before(last, end + last.rcv_queue.len(), end));
    }
}

/// A new conversation has received nothing, and is ready for the first message.
pub proof fn law_new_receiver_is_ready(
    conv: u64,
    params: KcpParams,
    current: u32,
    stream: spec_fn(int) -> (u8, Seq<u8>),
    messages: spec_fn(int) -> Seq<u8>,
    mss: int,
)
    requires
        28 < params.mtu <= 28 + u32::MAX,
    ensures
        ({
            let s = model::update(model::init(conv, params), current);
            &&& model::well_formed(s)
            &&& moved_up(s)
            &&& delivery::received_up_to(s, stream, messages, mss, 0)
            &&& ends_before(s, s.rcv_queue.len() as int, 0)
            &&& s.conv == conv
            &&& s.rcv_wnd == params.receive_window
        }),
{
    laws::lemma_init_well_formed(conv, params);
    laws::lemma_update_frame(model::init(conv, params), current);
}

/// A packet made of segments of the conversation is taken whole, and gives all its data
/// segments.
pub proof fn law_packet_is_taken(
    s: model::KcpState,
    current: u32,
    segs: Seq<model::SegmentState>,
    j: int,
)
    requires
        model::well_formed(s),
        0 <= j < segs.len(),
        forall|i: int|
            0 <= i < segs.len() ==> {
                &&& (#[trigger] segs[i]).conv == s.conv
                &&& model::known_cmd(segs[i].cmd)
                &&& segs[i].cmd != KCP_CMD_PUSH ==> segs[i].data.len() == 0
                &&& segs[i].data.len() <= u32::MAX
            },
    ensures
        model::input_at(s, current, laws::packet_of(segs)).1 is Ok,
        segs[j].cmd == KCP_CMD_PUSH ==> gives(s.conv, laws::packet_of(segs), segs[j].sn),
    decreases segs.len(),
{
    let seg = segs[0];
    let rest = segs.drop_first();
    let bytes = laws::packet_of(segs);
    laws::law_segment_roundtrip(seg, laws::packet_of(rest));
    laws::lemma_encode_len(seg);
    assert(model::decode_segment(bytes).conv == seg.conv);
    assert(bytes[8] == model::decode_segment(bytes).cmd);
    let now = model::KcpState { current, ..s };
    laws::lemma_same_queues(s, now);
    laws::law_packet_roundtrip(
        model::InputScan { state: now, acked: false, max_ack: 0, latest_ts: 0 },
        segs,
    );
    if j > 0 {
        assert forall|i: int| 0 <= i < rest.len() implies {
            &&& (#[trigger] rest[i]).conv == s.conv
            &&& model::known_cmd(rest[i].cmd)
            &&& rest[i].cmd != KCP_CMD_PUSH ==> rest[i].data.len() == 0
            &&& rest[i].data.len() <= u32::MAX
        } by {
            assert(rest[i] == segs[i + 1]);
        }
        law_packet_is_taken(s, current, rest, j - 1);
    }
}

} // verus!
