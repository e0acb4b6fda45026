//! What a packet of the peer changes: the round trip estimate, the windows, and what is
//! still under way.
use vstd::prelude::*;

use crate::kcp::control::{KcpParams, KCP_CMD_ACK, KCP_CMD_PUSH};
use crate::kcp::flushing::{ahead, due, greater, reached, smaller, span};
use crate::kcp::flushing;
use crate::kcp::laws;
use crate::kcp::model;
use crate::kcp::resend;

verus! {

/// The segment can be in a packet to `s`.
pub open spec fn fits(s: model::KcpState, seg: model::SegmentState) -> bool {
    &&& seg.conv == s.conv
    &&& 81 <= seg.cmd <= 84
    &&& seg.cmd != 81 ==> seg.data.len() == 0
    &&& seg.data.len() <= u32::MAX
}

pub open spec fn all_fit(s: model::KcpState, segs: Seq<model::SegmentState>) -> bool {
    forall|i: int| 0 <= i < segs.len() ==> fits(s, #[trigger] segs[i])
}

/// The state after a packet of these segments has come in at `current`.
pub open spec fn taken(
    s: model::KcpState,
    current: u32,
    segs: Seq<model::SegmentState>,
) -> model::KcpState {
    model::input_at(s, current, laws::packet_of(segs)).0
}

spec fn start(s: model::KcpState, current: u32) -> model::InputScan {
    model::InputScan {
        state: model::KcpState { current, ..s },
        acked: false,
        max_ack: 0,
        latest_ts: 0,
    }
}

proof fn lemma_start(s: model::KcpState, current: u32)
    requires
        model::well_formed(s),
    ensures
        model::well_formed(start(s, current).state),
{
    laws::lemma_same_queues(s, start(s, current).state);
}

proof fn lemma_apply_push(
    scan: model::InputScan,
    segs: Seq<model::SegmentState>,
    seg: model::SegmentState,
)
    ensures
        laws::apply_all(scan, segs.push(seg)) == model::apply_segment(
            laws::apply_all(scan, segs),
            laws::on_the_wire(seg),
        ),
    decreases segs.len(),
{
    reveal_with_fuel(laws::apply_all, 2);
    let all = segs.push(seg);
    if segs.len() > 0 {
        assert(all.drop_first() =~= segs.drop_first().push(seg));
        assert(all[0] == segs[0]);
        lemma_apply_push(
            model::apply_segment(scan, laws::on_the_wire(segs[0])),
            segs.drop_first(),
            seg,
        );
    } else {
        assert(all.drop_first() =~= segs);
    }
}

/// What one segment leaves alone.
proof fn lemma_apply_frame(scan: model::InputScan, seg: model::SegmentState)
    requires
        model::well_formed(scan.state),
    ensures
        ({
            let s = scan.state;
            let t = model::apply_segment(scan, seg).state;
            &&& model::well_formed(t)
            &&& t == (model::KcpState {
                rmt_wnd: seg.wnd,
                snd_una: t.snd_una,
                snd_buf: t.snd_buf,
                rx_srtt: t.rx_srtt,
                rx_rttval: t.rx_rttval,
                rx_rto: t.rx_rto,
                acklist: t.acklist,
                rcv_nxt: t.rcv_nxt,
                rcv_buf: t.rcv_buf,
                rcv_queue: t.rcv_queue,
                ask_tell: t.ask_tell,
                ..s
            })
        }),
{
    laws::lemma_apply_segment_well_formed(scan, seg);
    let s = model::parse_una(model::KcpState { rmt_wnd: seg.wnd, ..scan.state }, seg.una);
    if seg.cmd == KCP_CMD_PUSH {
        let acking = model::KcpState { acklist: s.acklist.push((seg.sn, seg.ts)), ..s };
        laws::lemma_same_queues(
            scan.state,
            model::KcpState { snd_una: scan.state.snd_una, snd_buf: scan.state.snd_buf, ..acking },
        );
        assert(model::recv_side_holds(acking)) by {
            assert forall|i: int| 0 <= i < acking.rcv_buf.len() implies model::recv_offset(
                acking,
                (#[trigger] acking.rcv_buf[i]).sn,
            ) == model::recv_offset(scan.state, scan.state.rcv_buf[i].sn) by {}
        }
        laws::lemma_parse_data_holds(acking, seg);
    }
}

proof fn lemma_apply_all_frame(scan: model::InputScan, segs: Seq<model::SegmentState>)
    requires
        model::well_formed(scan.state),
    ensures
        ({
            let s = scan.state;
            let t = laws::apply_all(scan, segs).state;
            &&& model::well_formed(t)
            &&& t == (model::KcpState {
                rmt_wnd: t.rmt_wnd,
                snd_una: t.snd_una,
                snd_buf: t.snd_buf,
                rx_srtt: t.rx_srtt,
                rx_rttval: t.rx_rttval,
                rx_rto: t.rx_rto,
                acklist: t.acklist,
                rcv_nxt: t.rcv_nxt,
                rcv_buf: t.rcv_buf,
                rcv_queue: t.rcv_queue,
                ask_tell: t.ask_tell,
                ..s
            })
        }),
    decreases segs.len(),
{
    if segs.len() > 0 {
        let seg = laws::on_the_wire(segs[0]);
        lemma_apply_frame(scan, seg);
        lemma_apply_all_frame(model::apply_segment(scan, seg), segs.drop_first());
    }
}

/// What a packet leaves is what its segments leave, but for the counts of overtaken segments
/// and the congestion window.
proof fn lemma_taken(s: model::KcpState, current: u32, segs: Seq<model::SegmentState>)
    requires
        model::well_formed(s),
        all_fit(s, segs),
    ensures
        ({
            let u = laws::apply_all(start(s, current), segs).state;
            let t = taken(s, current, segs);
            &&& model::well_formed(u)
            &&& t == (model::KcpState { snd_buf: t.snd_buf, cwnd: t.cwnd, incr: t.incr, ..u })
            &&& t.snd_buf.len() == u.snd_buf.len()
            &&& forall|i: int|
                0 <= i < t.snd_buf.len() ==> (#[trigger] t.snd_buf[i]).sn == u.snd_buf[i].sn
            &&& segs.len() > 0 ==> model::input_at(s, current, laws::packet_of(segs)).1 is Ok
        }),
{
    let scan = start(s, current);
    lemma_start(s, current);
    lemma_apply_all_frame(scan, segs);
    assert forall|i: int| 0 <= i < segs.len() implies {
        &&& (#[trigger] segs[i]).conv == scan.state.conv
        &&& model::known_cmd(segs[i].cmd)
        &&& segs[i].cmd != KCP_CMD_PUSH ==> segs[i].data.len() == 0
        &&& segs[i].data.len() <= u32::MAX
    } by {
        assert(fits(s, segs[i]));
    }
    laws::law_packet_roundtrip(scan, segs);
    let end = laws::apply_all(scan, segs);
    laws::lemma_fastack_all(end.state.snd_buf, end.max_ack, end.latest_ts);
    if segs.len() > 0 {
        laws::lemma_encode_len(segs[0]);
    } else {
        assert(laws::packet_of(segs).len() == 0);
        assert(end == scan);
    }
}

// ---------------------------------------------------------------------------
// Round trips
// ---------------------------------------------------------------------------

/// The estimates of `t` are those of `s` after a sample of `r` milliseconds: the first sample
/// is taken as it is, a later one with a weight of one in eight, and its distance from the
/// estimate with one of one in four. The timeout is the estimate and four times the
/// variation, at least the interval, and lies between the shortest and the longest timeout.
pub open spec fn measured(s: model::KcpState, t: model::KcpState, r: int) -> bool {
    let distance = if r < s.rx_srtt {
        s.rx_srtt - r
    } else {
        r - s.rx_srtt
    };
    let sum = t.rx_srtt + greater(s.timing.interval as int, 4 * t.rx_rttval);
    &&& s.rx_srtt == 0 ==> t.rx_srtt == r && 2 * t.rx_rttval <= r <= 2 * t.rx_rttval + 1
    &&& s.rx_srtt > 0 ==> {
        &&& t.rx_srtt >= 1
        &&& 7 * s.rx_srtt + r < 8 * t.rx_srtt + 8
        &&& 8 * t.rx_srtt <= 7 * s.rx_srtt + r || t.rx_srtt == 1
        &&& 4 * t.rx_rttval <= 3 * s.rx_rttval + distance < 4 * t.rx_rttval + 4
    }
    &&& t.rx_rto == smaller(greater(sum, s.rx_minrto as int), s.timing.rto_max as int)
}

/// The estimates are the same.
pub open spec fn unmeasured(s: model::KcpState, t: model::KcpState) -> bool {
    s.rx_srtt == t.rx_srtt && s.rx_rttval == t.rx_rttval && s.rx_rto == t.rx_rto
}

proof fn lemma_update_ack(s: model::KcpState, r: int)
    requires
        0 <= r < 0x8000_0000,
    ensures
        measured(s, model::update_ack(s, r as u32), r),
{
}

/// What one more segment in a packet changes. An acknowledgement measures the round trip
/// since the time that it carries; one from the future measures nothing, and no other segment
/// does. A data segment before the end of the receive window is noted for acknowledgement
/// with its serial number and time. A question for the window is noted to be answered. Each
/// segment tells the window of the peer.
pub proof fn law_one_more_segment(
    s: model::KcpState,
    current: u32,
    segs: Seq<model::SegmentState>,
    seg: model::SegmentState,
)
    requires
        model::well_formed(s),
        all_fit(s, segs),
        fits(s, seg),
    ensures
        ({
            let t = taken(s, current, segs);
            let u = taken(s, current, segs.push(seg));
            &&& model::input_at(s, current, laws::packet_of(segs.push(seg))).1 is Ok
            &&& u.rmt_wnd == seg.wnd
            &&& if seg.cmd == 82 && reached(current, seg.ts) {
                measured(t, u, (current - seg.ts) % 0x1_0000_0000)
            } else {
                unmeasured(t, u)
            }
            &&& u.acklist == if seg.cmd == 81 && before_window_end(t, seg.sn) {
                t.acklist.push((seg.sn, seg.ts))
            } else {
                t.acklist
            }
            &&& u.ask_tell == (t.ask_tell || seg.cmd == 83)
            &&& u.ask_send == t.ask_send
            &&& u.current == current
        }),
{
    let all = segs.push(seg);
    assert forall|i: int| 0 <= i < all.len() implies fits(s, #[trigger] all[i]) by {
        if i < segs.len() {
            assert(all[i] == segs[i]);
        }
    }
    lemma_taken(s, current, segs);
    lemma_taken(s, current, all);
    lemma_start(s, current);
    lemma_apply_all_frame(start(s, current), segs);
    lemma_apply_push(start(s, current), segs, seg);
    let scan = laws::apply_all(start(s, current), segs);
    lemma_segment_effects(scan, laws::on_the_wire(seg));
}

/// The serial number lies before the end of the receive window.
pub open spec fn before_window_end(s: model::KcpState, sn: u32) -> bool {
    (sn - s.rcv_nxt - s.rcv_wnd) % 0x1_0000_0000 >= 0x8000_0000
}

proof fn lemma_segment_effects(scan: model::InputScan, seg: model::SegmentState)
    requires
        model::well_formed(scan.state),
        81 <= seg.cmd <= 84,
    ensures
        ({
            let t = scan.state;
            let u = model::apply_segment(scan, seg).state;
            &&& if seg.cmd == 82 && reached(t.current, seg.ts) {
                measured(t, u, (t.current - seg.ts) % 0x1_0000_0000)
            } else {
                unmeasured(t, u)
            }
            &&& u.acklist == if seg.cmd == 81 && before_window_end(t, seg.sn) {
                t.acklist.push((seg.sn, seg.ts))
            } else {
                t.acklist
            }
            &&& u.ask_tell == (t.ask_tell || seg.cmd == 83)
            &&& u.rmt_wnd == seg.wnd
            &&& u.current == t.current
            &&& u.ask_send == t.ask_send
        }),
{
    lemma_apply_frame(scan, seg);
    if seg.cmd == KCP_CMD_ACK {
        lemma_ack_measures(scan, seg);
    } else if seg.cmd == KCP_CMD_PUSH {
        lemma_push_noted(scan, seg);
    }
}

proof fn lemma_ack_measures(scan: model::InputScan, seg: model::SegmentState)
    requires
        seg.cmd == KCP_CMD_ACK,
    ensures
        ({
            let t = scan.state;
            let u = model::apply_segment(scan, seg).state;
            &&& if reached(t.current, seg.ts) {
                measured(t, u, (t.current - seg.ts) % 0x1_0000_0000)
            } else {
                unmeasured(t, u)
            }
            &&& u.acklist == t.acklist
            &&& u.ask_tell == t.ask_tell
        }),
{
    let t = scan.state;
    let s = model::parse_una(model::KcpState { rmt_wnd: seg.wnd, ..t }, seg.una);
    lemma_distance(t.current, seg.ts);
    let rtt = model::timediff(s.current, seg.ts);
    if rtt >= 0 {
        lemma_update_ack(s, rtt);
    }
}

proof fn lemma_distance(now: u32, then: u32)
    ensures
        reached(now, then) == (model::timediff(now, then) >= 0),
        reached(now, then) ==> model::timediff(now, then) == (now - then) % 0x1_0000_0000,
        model::timediff(now, then) < 0x8000_0000,
{
}

proof fn lemma_push_noted(scan: model::InputScan, seg: model::SegmentState)
    requires
        model::well_formed(scan.state),
        seg.cmd == KCP_CMD_PUSH,
    ensures
        ({
            let t = scan.state;
            let u = model::apply_segment(scan, seg).state;
            &&& unmeasured(t, u)
            &&& u.acklist == if before_window_end(t, seg.sn) {
                t.acklist.push((seg.sn, seg.ts))
            } else {
                t.acklist
            }
            &&& u.ask_tell == t.ask_tell
        }),
{
    let t = scan.state;
    let s = model::parse_una(model::KcpState { rmt_wnd: seg.wnd, ..t }, seg.una);
    assert(model::below_window_end(s, seg.sn) == before_window_end(t, seg.sn));
    let acking = model::KcpState { acklist: s.acklist.push((seg.sn, seg.ts)), ..s };
    assert(model::recv_side_holds(acking)) by {
        assert forall|i: int| 0 <= i < acking.rcv_buf.len() implies model::recv_offset(
            acking,
            (#[trigger] acking.rcv_buf[i]).sn,
        ) == model::recv_offset(t, t.rcv_buf[i].sn) by {}
    }
    laws::lemma_parse_data_holds(acking, seg);
}

/// After an acknowledgement whose round trip took `r` milliseconds, the next segment that is
/// sent for the first time waits as long as the estimate says, and at least the first round
/// trip that was measured, or the longest timeout where that is shorter.
pub proof fn law_first_transmission_waits_a_round_trip(
    s: model::KcpState,
    current: u32,
    ack: model::SegmentState,
    r: int,
    i: int,
)
    requires
        model::well_formed(s),
        resend::addressed(s),
        fits(s, ack),
        ack.cmd == 82,
        0 <= r < 0x8000_0000,
        current == (ack.ts + r) % 0x1_0000_0000,
        ({
            let t = taken(s, current, seq![ack]);
            t.snd_buf.len() <= i < model::flushed(t).snd_buf.len()
        }),
    ensures
        ({
            let t = taken(s, current, seq![ack]);
            let seg = model::flushed(t).snd_buf[i];
            &&& measured(s, t, r)
            &&& seg.xmit == 1
            &&& seg.rto == t.rx_rto
            &&& ahead(current, seg.resendts) == t.rx_rto + if s.nodelay {
                0
            } else {
                t.rx_rto as int / 8
            }
            &&& s.rx_srtt == 0 ==> ahead(current, seg.resendts) >= smaller(
                r,
                s.timing.rto_max as int,
            )
        }),
{
    lemma_one_ack(s, current, ack, r);
    lemma_new_segment(taken(s, current, seq![ack]), i);
}

proof fn lemma_one_ack(s: model::KcpState, current: u32, ack: model::SegmentState, r: int)
    requires
        model::well_formed(s),
        resend::addressed(s),
        fits(s, ack),
        ack.cmd == 82,
        0 <= r < 0x8000_0000,
        current == (ack.ts + r) % 0x1_0000_0000,
    ensures
        ({
            let t = taken(s, current, seq![ack]);
            &&& measured(s, t, r)
            &&& model::well_formed(t)
            &&& resend::addressed(t)
            &&& t.nodelay == s.nodelay
            &&& t.timing == s.timing
            &&& t.current == current
        }),
{
    let none = Seq::<model::SegmentState>::empty();
    let one = seq![ack];
    assert(none.push(ack) =~= one);
    law_one_more_segment(s, current, none, ack);
    lemma_taken(s, current, none);
    lemma_taken(s, current, one);
    let bytes = laws::packet_of(one);
    assert(laws::apply_all(start(s, current), none) == start(s, current));
    lemma_sample(current, ack.ts, r);
    resend::lemma_input_addressed(s, current, bytes);
    lemma_taken_well_formed(s, current, one);
    lemma_start(s, current);
    lemma_apply_all_frame(start(s, current), one);
}

proof fn lemma_sample(current: u32, ts: u32, r: int)
    requires
        0 <= r < 0x8000_0000,
        current == (ts + r) % 0x1_0000_0000,
    ensures
        reached(current, ts),
        (current - ts) % 0x1_0000_0000 == r,
{
}

proof fn lemma_first_wait(t: model::KcpState, j: int, seg: model::SegmentState)
    requires
        flushing::first_sent(t, j, seg),
        t.rx_rto <= 1_530_000,
    ensures
        seg.xmit == 1,
        seg.rto == t.rx_rto,
        ahead(t.current, seg.resendts) == t.rx_rto + if t.nodelay {
            0
        } else {
            t.rx_rto as int / 8
        },
        forall|later: u32|
            (later - t.current) % 0x1_0000_0000 < t.rx_rto ==> !#[trigger] reached(
                later,
                seg.resendts,
            ),
{
    assert forall|later: u32| (later - t.current) % 0x1_0000_0000 < t.rx_rto implies !#[trigger] reached(
        later,
        seg.resendts,
    ) by {}
}

proof fn lemma_new_segment(t: model::KcpState, i: int)
    requires
        model::well_formed(t),
        resend::addressed(t),
        t.snd_buf.len() <= i < model::flushed(t).snd_buf.len(),
    ensures
        ({
            let seg = model::flushed(t).snd_buf[i];
            &&& seg.xmit == 1
            &&& seg.rto == t.rx_rto
            &&& ahead(t.current, seg.resendts) == t.rx_rto + if t.nodelay {
                0
            } else {
                t.rx_rto as int / 8
            }
            &&& forall|later: u32|
                (later - t.current) % 0x1_0000_0000 < t.rx_rto ==> !#[trigger] reached(
                    later,
                    seg.resendts,
                )
        }),
{
    flushing::law_flush_schedules(t);
    assert(flushing::first_sent(t, i - t.snd_buf.len(), model::flushed(t).snd_buf[i]));
    lemma_first_wait(t, i - t.snd_buf.len(), model::flushed(t).snd_buf[i]);
}

proof fn lemma_taken_well_formed(
    s: model::KcpState,
    current: u32,
    segs: Seq<model::SegmentState>,
)
    requires
        model::well_formed(s),
    ensures
        model::well_formed(taken(s, current, segs)),
{
    lemma_start(s, current);
    laws::lemma_input_well_formed(model::KcpState { current, ..s }, laws::packet_of(segs));
}

/// A segment that has been sent for the first time is not sent again before the timeout that
/// it was given is over, unless it is overtaken.
pub proof fn law_no_resend_before_the_timeout(s: model::KcpState, i: int, later: u32)
    requires
        model::well_formed(s),
        resend::addressed(s),
        s.snd_buf.len() <= i < model::flushed(s).snd_buf.len(),
        (later - s.current) % 0x1_0000_0000 < s.rx_rto,
    ensures
        ({
            let t = model::flushed(s);
            let then = model::KcpState { current: later, ..t };
            due(then, t.snd_buf[i]) ==> flushing::overtaken(t, t.snd_buf[i])
        }),
{
    lemma_new_segment(s, i);
    let t = model::flushed(s);
    assert(!reached(later, t.snd_buf[i].resendts));
}

// ---------------------------------------------------------------------------
// What is under way
// ---------------------------------------------------------------------------

/// No segment that a packet acknowledges is under way any more: none before the serial number
/// that each segment of the packet says is expected next, and not the one that an
/// acknowledgement names. What is acknowledged counts from the last segment of the packet.
/// (Serial numbers that wrap between two segments under way are left out.)
pub proof fn law_acknowledged_segments_leave(
    s: model::KcpState,
    current: u32,
    segs: Seq<model::SegmentState>,
    seg: model::SegmentState,
)
    requires
        model::well_formed(s),
        all_fit(s, segs),
        fits(s, seg),
        ({
            let t = taken(s, current, segs);
            &&& (seg.una - t.snd_una) % 0x1_0000_0000 <= 0x4000_0000
            &&& t.snd_una <= t.snd_nxt
        }),
    ensures
        ({
            let u = taken(s, current, segs.push(seg));
            &&& forall|i: int|
                0 <= i < u.snd_buf.len() ==> {
                    &&& reached((#[trigger] u.snd_buf[i]).sn, seg.una)
                    &&& seg.cmd == 82 ==> u.snd_buf[i].sn != seg.sn
                }
            &&& u.snd_una == if u.snd_buf.len() > 0 {
                u.snd_buf[0].sn
            } else {
                u.snd_nxt
            }
        }),
{
    let all = segs.push(seg);
    assert forall|i: int| 0 <= i < all.len() implies fits(s, #[trigger] all[i]) by {
        if i < segs.len() {
            assert(all[i] == segs[i]);
        }
    }
    lemma_taken(s, current, segs);
    lemma_taken(s, current, all);
    lemma_start(s, current);
    lemma_apply_all_frame(start(s, current), segs);
    lemma_apply_push(start(s, current), segs, seg);
    let scan = laws::apply_all(start(s, current), segs);
    lemma_segment_clears(scan, laws::on_the_wire(seg));
    lemma_apply_frame(scan, laws::on_the_wire(seg));
}

proof fn lemma_segment_clears(scan: model::InputScan, seg: model::SegmentState)
    requires
        model::well_formed(scan.state),
        (seg.una - scan.state.snd_una) % 0x1_0000_0000 <= 0x4000_0000,
        scan.state.snd_una <= scan.state.snd_nxt,
    ensures
        ({
            let u = model::apply_segment(scan, seg).state;
            &&& forall|i: int|
                0 <= i < u.snd_buf.len() ==> {
                    &&& reached((#[trigger] u.snd_buf[i]).sn, seg.una)
                    &&& seg.cmd == 82 ==> u.snd_buf[i].sn != seg.sn
                }
        }),
{
    let open = model::KcpState { rmt_wnd: seg.wnd, ..scan.state };
    laws::lemma_same_queues(scan.state, open);
    lemma_near(seg.una, open.snd_una, model::send_offset(open, open.snd_nxt));
    laws::law_una_acknowledges(open, seg.una);
    laws::lemma_parse_una_holds(open, seg.una);
    let s = model::parse_una(open, seg.una);
    let k = laws::lemma_drop_acked_suffix(open.snd_buf, seg.una);
    assert forall|i: int| 0 <= i < s.snd_buf.len() implies {
        &&& reached((#[trigger] s.snd_buf[i]).sn, seg.una)
        &&& s.snd_buf[i].sn < open.snd_nxt
        &&& open.snd_una <= s.snd_buf[i].sn
    } by {
        assert(s.snd_buf[i] == open.snd_buf[i + k]);
        assert(model::timediff(seg.una, s.snd_buf[i].sn) <= 0);
        lemma_not_after(seg.una, s.snd_buf[i].sn, open.snd_una, open.snd_nxt);
    }
    let u = model::apply_segment(scan, seg).state;
    if seg.cmd == KCP_CMD_ACK {
        let rtt = model::timediff(s.current, seg.ts);
        let sampled = if rtt >= 0 {
            model::update_ack(s, rtt as u32)
        } else {
            s
        };
        assert(sampled.snd_buf == s.snd_buf);
        resend::lemma_remove_sn_keeps(s.snd_buf, seg.sn);
        assert forall|i: int, j: int| 0 <= i < j < s.snd_buf.len() implies (
        #[trigger] s.snd_buf[i]).sn < (#[trigger] s.snd_buf[j]).sn by {
            assert(s.snd_buf[i] == open.snd_buf[i + k]);
            assert(s.snd_buf[j] == open.snd_buf[j + k]);
            assert(model::send_offset(open, open.snd_buf[i + k].sn) < model::send_offset(
                open,
                open.snd_buf[j + k].sn,
            ));
            lemma_offset_order(
                open.snd_buf[i + k].sn,
                open.snd_buf[j + k].sn,
                open.snd_una,
                open.snd_nxt,
            );
        }
        lemma_removed(s.snd_buf, seg.sn);
        assert forall|i: int| 0 <= i < u.snd_buf.len() implies {
            &&& reached((#[trigger] u.snd_buf[i]).sn, seg.una)
            &&& u.snd_buf[i].sn != seg.sn
        } by {
            if model::in_flight(sampled, seg.sn) {
                assert(u.snd_buf == model::remove_sn(s.snd_buf, seg.sn));
                assert(u.snd_buf.contains(u.snd_buf[i]));
                assert(s.snd_buf.contains(u.snd_buf[i]));
                let j = choose|j: int| 0 <= j < s.snd_buf.len() && s.snd_buf[j] == u.snd_buf[i];
                assert(reached(s.snd_buf[j].sn, seg.una));
            } else {
                assert(u.snd_buf == s.snd_buf);
                assert(model::send_offset(s, s.snd_buf[i].sn) < model::send_offset(s, s.snd_nxt));
                lemma_in_flight(s, s.snd_buf[i].sn);
            }
        }
    } else {
        lemma_apply_frame(scan, seg);
        assert(u.snd_buf == s.snd_buf) by {
            if seg.cmd == KCP_CMD_PUSH {
                let acking = model::KcpState { acklist: s.acklist.push((seg.sn, seg.ts)), ..s };
                assert(model::recv_side_holds(acking)) by {
                    assert forall|i: int| 0 <= i < acking.rcv_buf.len() implies model::recv_offset(
                        acking,
                        (#[trigger] acking.rcv_buf[i]).sn,
                    ) == model::recv_offset(scan.state, scan.state.rcv_buf[i].sn) by {}
                }
                laws::lemma_parse_data_holds(acking, seg);
            }
        }
    }
}

proof fn lemma_near(una: u32, first: u32, span: int)
    requires
        (una - first) % 0x1_0000_0000 <= 0x4000_0000,
        0 <= span <= 0xffff,
    ensures
        model::timediff(una, first) - span >= -0x8000_0000,
{
}

proof fn lemma_not_after(una: u32, sn: u32, first: u32, next: u32)
    requires
        model::timediff(una, sn) <= 0,
        (una - first) % 0x1_0000_0000 <= 0x4000_0000,
        first <= next,
        sn.wrapping_sub(first) < next.wrapping_sub(first) <= 0xffff,
    ensures
        reached(sn, una),
        first <= sn < next,
{
}

proof fn lemma_offset_order(a: u32, b: u32, first: u32, next: u32)
    requires
        first <= next,
        a.wrapping_sub(first) < b.wrapping_sub(first) < next.wrapping_sub(first) <= 0xffff,
    ensures
        a < b,
{
}

proof fn lemma_in_flight(s: model::KcpState, sn: u32)
    requires
        model::send_offset(s, s.snd_nxt) <= 0xffff,
        model::send_offset(s, sn) < model::send_offset(s, s.snd_nxt),
    ensures
        model::in_flight(s, sn),
{
}

/// The serial number is gone from a queue in order.
proof fn lemma_removed(queue: Seq<model::SegmentState>, sn: u32)
    requires
        forall|i: int, j: int|
            0 <= i < j < queue.len() ==> (#[trigger] queue[i]).sn < (#[trigger] queue[j]).sn,
    ensures
        forall|i: int|
            0 <= i < model::remove_sn(queue, sn).len() ==> (#[trigger] model::remove_sn(
                queue,
                sn,
            )[i]).sn != sn,
    decreases queue.len(),
{
    if queue.len() > 0 {
        let rest = queue.drop_first();
        let left = model::remove_sn(queue, sn);
        assert forall|i: int, j: int| 0 <= i < j < rest.len() implies (#[trigger] rest[i]).sn < (
        #[trigger] rest[j]).sn by {
            assert(queue[i + 1].sn < queue[j + 1].sn);
        }
        lemma_removed(rest, sn);
        assert forall|i: int| 0 <= i < left.len() implies (#[trigger] left[i]).sn != sn by {
            if sn < queue[0].sn {
                if i > 0 {
                    assert(queue[0].sn < queue[i].sn);
                }
            } else if queue[0].sn == sn {
                assert(left[i] == queue[i + 1]);
                assert(queue[0].sn < queue[i + 1].sn);
            } else if i > 0 {
                assert(left[i] == model::remove_sn(rest, sn)[i - 1]);
            }
        }
    }
}

/// The segment has been overtaken once more.
pub open spec fn counted(old: model::SegmentState) -> model::SegmentState {
    model::SegmentState { fastack: ((old.fastack + 1) % 0x1_0000_0000) as u32, ..old }
}

proof fn lemma_fastack_each(queue: Seq<model::SegmentState>, sn: u32, ts: u32, first: u32, n: int)
    requires
        forall|i: int|
            0 <= i < queue.len() ==> (#[trigger] queue[i]).sn.wrapping_sub(first) < n,
        forall|i: int, j: int|
            0 <= i < j < queue.len() ==> (#[trigger] queue[i]).sn.wrapping_sub(first) < (
            #[trigger] queue[j]).sn.wrapping_sub(first),
        sn.wrapping_sub(first) < n <= 0xffff,
    ensures
        ({
            let all = model::fastack_all(queue, sn, ts);
            &&& all.len() == queue.len()
            &&& forall|i: int|
                0 <= i < queue.len() ==> #[trigger] all[i] == if queue[i].sn.wrapping_sub(first)
                    < sn.wrapping_sub(first) && reached(ts, queue[i].ts) {
                    counted(queue[i])
                } else {
                    queue[i]
                }
        }),
    decreases queue.len(),
{
    if queue.len() > 0 {
        let rest = queue.drop_first();
        lemma_distance(ts, queue[0].ts);
        if model::timediff(sn, queue[0].sn) < 0 {
            assert forall|i: int| 0 <= i < queue.len() implies (
            #[trigger] queue[i]).sn.wrapping_sub(first) >= sn.wrapping_sub(first) by {
                if i > 0 {
                    assert(queue[0].sn.wrapping_sub(first) < queue[i].sn.wrapping_sub(first));
                }
            }
        } else {
            assert forall|i: int| 0 <= i < rest.len() implies (
            #[trigger] rest[i]).sn.wrapping_sub(first) < n by {
                assert(rest[i] == queue[i + 1]);
            }
            assert forall|i: int, j: int| 0 <= i < j < rest.len() implies (
            #[trigger] rest[i]).sn.wrapping_sub(first) < (#[trigger] rest[j]).sn.wrapping_sub(
                first,
            ) by {
                assert(rest[i] == queue[i + 1]);
                assert(rest[j] == queue[j + 1]);
            }
            lemma_fastack_each(rest, sn, ts, first, n);
            let all = model::fastack_all(queue, sn, ts);
            let tail = model::fastack_all(rest, sn, ts);
            assert forall|i: int| 0 <= i < queue.len() implies #[trigger] all[i]
                == if queue[i].sn.wrapping_sub(first) < sn.wrapping_sub(first) && reached(
                ts,
                queue[i].ts,
            ) {
                counted(queue[i])
            } else {
                queue[i]
            } by {
                if i > 0 {
                    assert(all[i] == tail[i - 1]);
                    assert(rest[i - 1] == queue[i]);
                }
            }
        }
    }
}

/// An acknowledgement of a later segment overtakes the segments before it: each of them that
/// was not sent after the acknowledged one is counted once more, and no other segment is.
pub proof fn law_acknowledgement_overtakes(
    s: model::KcpState,
    current: u32,
    ack: model::SegmentState,
    j: int,
)
    requires
        model::well_formed(s),
        fits(s, ack),
        ack.cmd == 82,
        ack.una == s.snd_una,
        0 <= j < s.snd_buf.len(),
        s.snd_buf[j].sn != ack.sn,
    ensures
        ({
            let t = taken(s, current, seq![ack]);
            let old = s.snd_buf[j];
            let passed = (old.sn - s.snd_una) % 0x1_0000_0000 < (ack.sn - s.snd_una)
                % 0x1_0000_0000 < span(s) && reached(ack.ts, old.ts);
            t.snd_buf.contains(
                if passed {
                    counted(old)
                } else {
                    old
                },
            )
        }),
{
    let left = model::apply_segment(start(s, current), laws::on_the_wire(ack)).state;
    lemma_one_ack_leaves(s, current, ack);
    lemma_one_ack_counts(s, current, ack);
    lemma_same_offsets(s, s.snd_buf[j].sn);
    lemma_same_offsets(s, ack.sn);
    assert(s.snd_buf.contains(s.snd_buf[j]));
    assert(left.snd_buf.contains(s.snd_buf[j]));
    let k = choose|k: int| 0 <= k < left.snd_buf.len() && left.snd_buf[k] == s.snd_buf[j];
    assert(left.snd_buf.contains(left.snd_buf[0]));
    let first = choose|i: int| 0 <= i < s.snd_buf.len() && s.snd_buf[i] == left.snd_buf[0];
    assert(model::send_offset(s, s.snd_buf[first].sn) < model::send_offset(s, s.snd_nxt));
    lemma_fast_part(s, left, ack.sn, ack.ts, k);
    laws::lemma_fastack_all(left.snd_buf, ack.sn, ack.ts);
    let fast = model::parse_fastack(left, ack.sn, ack.ts);
    assert(fast.snd_buf.contains(fast.snd_buf[k]));
}

/// A single acknowledgement that moves nothing else leaves all other segments.
proof fn lemma_one_ack_leaves(s: model::KcpState, current: u32, ack: model::SegmentState)
    requires
        model::well_formed(s),
        ack.cmd == 82,
        ack.una == s.snd_una,
        s.snd_buf.len() > 0,
    ensures
        ({
            let left = model::apply_segment(start(s, current), laws::on_the_wire(ack)).state;
            &&& model::well_formed(left)
            &&& left.snd_nxt == s.snd_nxt
            &&& left.snd_buf.len() > 0 ==> left.snd_una == left.snd_buf[0].sn
            &&& forall|seg: model::SegmentState|
                #![trigger left.snd_buf.contains(seg)]
                #![trigger s.snd_buf.contains(seg)]
                {
                    &&& left.snd_buf.contains(seg) ==> s.snd_buf.contains(seg)
                    &&& s.snd_buf.contains(seg) && seg.sn != ack.sn ==> left.snd_buf.contains(seg)
                }
        }),
{
    let now = start(s, current);
    lemma_start(s, current);
    let seg = laws::on_the_wire(ack);
    let open = model::KcpState { rmt_wnd: seg.wnd, ..now.state };
    assert(open.snd_buf[0].sn == s.snd_una);
    assert(model::timediff(ack.una, open.snd_buf[0].sn) == 0);
    assert(model::drop_acked(open.snd_buf, ack.una) == open.snd_buf);
    lemma_apply_frame(now, seg);
    resend::lemma_remove_sn_keeps(s.snd_buf, ack.sn);
}

proof fn lemma_one_ack_counts(s: model::KcpState, current: u32, ack: model::SegmentState)
    requires
        model::well_formed(s),
        fits(s, ack),
        ack.cmd == 82,
    ensures
        ({
            let left = model::apply_segment(start(s, current), laws::on_the_wire(ack)).state;
            taken(s, current, seq![ack]).snd_buf == model::parse_fastack(
                left,
                ack.sn,
                ack.ts,
            ).snd_buf
        }),
{
    let now = start(s, current);
    lemma_start(s, current);
    let one = seq![ack];
    laws::law_packet_roundtrip(now, one);
    reveal_with_fuel(laws::apply_all, 3);
    assert(one.drop_first() =~= Seq::empty());
    laws::lemma_encode_len(ack);
}

proof fn lemma_same_offsets(s: model::KcpState, sn: u32)
    ensures
        (sn - s.snd_una) % 0x1_0000_0000 == sn.wrapping_sub(s.snd_una),
        span(s) == s.snd_nxt.wrapping_sub(s.snd_una),
{
}

proof fn lemma_fast_part(
    s: model::KcpState,
    left: model::KcpState,
    sn: u32,
    ts: u32,
    k: int,
)
    requires
        model::well_formed(s),
        model::well_formed(left),
        left.snd_nxt == s.snd_nxt,
        s.snd_buf.len() > 0,
        0 <= k < left.snd_buf.len(),
        left.snd_buf.len() > 0,
        left.snd_una == left.snd_buf[0].sn,
        s.snd_una.wrapping_add(left.snd_una.wrapping_sub(s.snd_una)) == left.snd_una,
        left.snd_una.wrapping_sub(s.snd_una) + left.snd_nxt.wrapping_sub(left.snd_una)
            == s.snd_nxt.wrapping_sub(s.snd_una),
        left.snd_buf[k].sn != sn,
    ensures
        model::parse_fastack(left, sn, ts).snd_buf[k] == if left.snd_buf[k].sn.wrapping_sub(
            s.snd_una,
        ) < sn.wrapping_sub(s.snd_una) < s.snd_nxt.wrapping_sub(s.snd_una) && reached(
            ts,
            left.snd_buf[k].ts,
        ) {
            counted(left.snd_buf[k])
        } else {
            left.snd_buf[k]
        },
{
    let queue = left.snd_buf;
    let n = left.snd_nxt.wrapping_sub(left.snd_una) as int;
    assert(model::send_offset(left, left.snd_nxt) == n);
    assert forall|i: int| 0 <= i < queue.len() implies (
    #[trigger] queue[i]).sn.wrapping_sub(left.snd_una) < n by {
        assert(model::send_offset(left, queue[i].sn) < n);
    }
    assert forall|i: int, j: int| 0 <= i < j < queue.len() implies (
    #[trigger] queue[i]).sn.wrapping_sub(left.snd_una) < (#[trigger] queue[j]).sn.wrapping_sub(
        left.snd_una,
    ) by {
        assert(model::send_offset(left, queue[i].sn) < model::send_offset(left, queue[j].sn));
    }
    lemma_shift(queue[k].sn, s.snd_una, left.snd_una, s.snd_nxt);
    lemma_shift(sn, s.snd_una, left.snd_una, s.snd_nxt);
    lemma_flight_offset(left, sn);
    if model::in_flight(left, sn) {
        lemma_fastack_each(queue, sn, ts, left.snd_una, n);
    }
}

proof fn lemma_flight_offset(s: model::KcpState, sn: u32)
    requires
        s.snd_nxt.wrapping_sub(s.snd_una) <= 0xffff,
    ensures
        model::in_flight(s, sn) == (sn.wrapping_sub(s.snd_una) < s.snd_nxt.wrapping_sub(
            s.snd_una,
        )),
{
}

proof fn lemma_shift(x: u32, a: u32, b: u32, next: u32)
    requires
        b.wrapping_sub(a) + next.wrapping_sub(b) == next.wrapping_sub(a) <= 0xffff,
    ensures
        x.wrapping_sub(b) < next.wrapping_sub(b) <==> b.wrapping_sub(a) <= x.wrapping_sub(a)
            < next.wrapping_sub(a),
        x.wrapping_sub(b) < next.wrapping_sub(b) ==> x.wrapping_sub(a) == b.wrapping_sub(a)
            + x.wrapping_sub(b),
{
}

// ---------------------------------------------------------------------------
// The congestion window
// ---------------------------------------------------------------------------

/// A packet that acknowledges something new widens the congestion window, as long as it is
/// smaller than the window of the peer: by one below the threshold, and by less and less
/// above it. Any other packet leaves it, and none changes the threshold.
pub proof fn law_acknowledgement_widens_the_window(
    s: model::KcpState,
    current: u32,
    segs: Seq<model::SegmentState>,
)
    requires
        model::well_formed(s),
        all_fit(s, segs),
    ensures
        ({
            let t = taken(s, current, segs);
            let news = reached(t.snd_una, s.snd_una) && t.snd_una != s.snd_una;
            let mss = s.mss as int;
            &&& t.ssthresh == s.ssthresh
            &&& !(news && s.cwnd < t.rmt_wnd) ==> t.cwnd == s.cwnd && t.incr == s.incr
            &&& news && s.cwnd < t.rmt_wnd && s.cwnd < s.ssthresh ==> {
                &&& t.cwnd == s.cwnd + 1
                &&& t.incr == s.incr + mss
            }
            &&& news && s.cwnd < t.rmt_wnd && s.cwnd >= s.ssthresh ==> {
                let base = greater(s.incr as int, mss);
                let incr = base + (mss * mss) / base + mss / 16;
                &&& t.cwnd <= t.rmt_wnd
                &&& incr < (s.cwnd + 1) * mss ==> t.cwnd == s.cwnd && t.incr == incr
                &&& incr >= (s.cwnd + 1) * mss ==> {
                    ||| t.cwnd == t.rmt_wnd && t.rmt_wnd * mss <= incr + mss
                    ||| (t.cwnd - 1) * mss < incr <= t.cwnd * mss
                }
            }
        }),
{
    lemma_start(s, current);
    let now = start(s, current);
    lemma_taken(s, current, segs);
    lemma_apply_all_frame(now, segs);
    lemma_widened(s, current, segs);
    let u = laws::apply_all(now, segs).state;
    lemma_distance(u.snd_una, s.snd_una);
    if segs.len() > 0 && u.cwnd < u.rmt_wnd {
        lemma_grown(u);
    }
}

proof fn lemma_widened(s: model::KcpState, current: u32, segs: Seq<model::SegmentState>)
    requires
        model::well_formed(s),
        all_fit(s, segs),
    ensures
        ({
            let u = laws::apply_all(start(s, current), segs).state;
            let t = taken(s, current, segs);
            if segs.len() > 0 && model::timediff(u.snd_una, s.snd_una) > 0 && u.cwnd < u.rmt_wnd {
                &&& t.cwnd == model::grow_window(u).cwnd
                &&& t.incr == model::grow_window(u).incr
            } else {
                t.cwnd == u.cwnd && t.incr == u.incr
            }
        }),
        segs.len() == 0 ==> laws::apply_all(start(s, current), segs).state.snd_una == s.snd_una,
{
    let scan = start(s, current);
    lemma_start(s, current);
    assert forall|i: int| 0 <= i < segs.len() implies {
        &&& (#[trigger] segs[i]).conv == scan.state.conv
        &&& model::known_cmd(segs[i].cmd)
        &&& segs[i].cmd != KCP_CMD_PUSH ==> segs[i].data.len() == 0
        &&& segs[i].data.len() <= u32::MAX
    } by {
        assert(fits(s, segs[i]));
    }
    laws::law_packet_roundtrip(scan, segs);
    if segs.len() > 0 {
        laws::lemma_encode_len(segs[0]);
    }
}

proof fn lemma_grown(s: model::KcpState)
    requires
        model::well_formed(s),
        s.cwnd < s.rmt_wnd,
    ensures
        ({
            let t = model::grow_window(s);
            let mss = s.mss as int;
            &&& s.cwnd < s.ssthresh ==> t.cwnd == s.cwnd + 1 && t.incr == s.incr + mss
            &&& s.cwnd >= s.ssthresh ==> {
                let base = greater(s.incr as int, mss);
                let incr = base + (mss * mss) / base + mss / 16;
                &&& t.cwnd <= s.rmt_wnd
                &&& incr < (s.cwnd + 1) * mss ==> t.cwnd == s.cwnd && t.incr == incr
                &&& incr >= (s.cwnd + 1) * mss ==> {
                    ||| t.cwnd == s.rmt_wnd && s.rmt_wnd * mss <= incr + mss
                    ||| (t.cwnd - 1) * mss < incr <= t.cwnd * mss
                }
            }
        }),
{
    laws::lemma_grow_window(s);
    let mss = s.mss as int;
    let base = greater(s.incr as int, mss);
    let incr = base + (mss * mss) / base + mss / 16;
    if s.cwnd >= s.ssthresh && incr >= (s.cwnd + 1) * mss {
        vstd::arithmetic::div_mod::lemma_fundamental_div_mod(incr - 1, mss);
        vstd::arithmetic::div_mod::lemma_mod_bound(incr - 1, mss);
        let q = (incr - 1) / mss;
        assert(mss * q == q * mss) by (nonlinear_arith);
        assert((q + 1) * mss == q * mss + mss) by (nonlinear_arith);
        assert(incr > 0) by (nonlinear_arith)
            requires
                incr >= (s.cwnd + 1) * mss,
                mss > 0,
                s.cwnd >= 0,
        ;
        assert(model::div_ceil(incr, mss) == q + 1);
        if q + 1 > s.rmt_wnd {
            assert(s.rmt_wnd * mss <= q * mss) by (nonlinear_arith)
                requires
                    s.rmt_wnd <= q,
                    mss > 0,
            ;
        }
    }
}

// ---------------------------------------------------------------------------
// Messages
// ---------------------------------------------------------------------------

/// A message goes out in pieces that are full but for the last one, and count down to zero.
/// It is taken where the pieces are fewer than the receive window and than 256.
pub proof fn law_send_cuts_the_message(s: model::KcpState, data: Seq<u8>, n: int)
    requires
        model::well_formed(s),
        data.len() <= usize::MAX,
        n >= 1,
        (n - 1) * s.mss < data.len() <= n * s.mss || (n == 1 && data.len() == 0),
    ensures
        ({
            let (t, result) = model::send(s, data);
            &&& result is Ok <==> n < s.rcv_wnd && n < 256
            &&& result is Ok ==> {
                &&& result->Ok_0 == data.len()
                &&& t.snd_queue.len() == s.snd_queue.len() + n
                &&& t.snd_queue.take(s.snd_queue.len() as int) == s.snd_queue
                &&& forall|i: int|
                    0 <= i < n ==> {
                        let piece = #[trigger] t.snd_queue[s.snd_queue.len() + i];
                        &&& piece.frg == n - 1 - i
                        &&& piece.data == data.subrange(
                            i * s.mss,
                            smaller((i + 1) * s.mss, data.len() as int),
                        )
                    }
                &&& t == (model::KcpState { snd_queue: t.snd_queue, ..s })
            }
            &&& result is Err ==> t == s && result == Err::<usize, crate::kcp::error::Error>(
                crate::kcp::error::Error::UserBufTooBig,
            )
        }),
{
    let mss = s.mss as int;
    lemma_piece_count(data.len() as int, mss, n);
    let count = model::fragment_count(data.len(), mss);
    assert(count == n);
    if n < 256 {
        lemma_pieces(data, mss, n as nat);
        let t = model::send(s, data).0;
        if n < s.rcv_wnd {
            let pieces = model::fragments(data, mss, n as nat);
            assert(t.snd_queue.take(s.snd_queue.len() as int) =~= s.snd_queue);
            assert forall|i: int| 0 <= i < n implies {
                let piece = #[trigger] t.snd_queue[s.snd_queue.len() + i];
                &&& piece.frg == n - 1 - i
                &&& piece.data == data.subrange(
                    i * s.mss,
                    smaller((i + 1) * s.mss, data.len() as int),
                )
            } by {
                assert(t.snd_queue[s.snd_queue.len() + i] == pieces[i]);
            }
        }
    }
}

proof fn lemma_piece_count(len: int, mss: int, n: int)
    requires
        0 <= len,
        0 < mss,
        n >= 1,
        (n - 1) * mss < len <= n * mss || (n == 1 && len == 0),
    ensures
        model::max(model::div_ceil(len, mss), 1) == n,
{
    if len > 0 {
        let x = len - 1;
        let r = x - (n - 1) * mss;
        assert(n * mss == (n - 1) * mss + mss) by (nonlinear_arith);
        vstd::arithmetic::div_mod::lemma_fundamental_div_mod_converse(x, mss, n - 1, r);
        assert((n - 1) * mss == mss * (n - 1)) by (nonlinear_arith);
    }
}

proof fn lemma_pieces(data: Seq<u8>, mss: int, n: nat)
    requires
        0 < mss,
        n < 256,
        n >= 1 ==> (n - 1) * mss < data.len() <= n * mss || (n == 1 && data.len() == 0),
    ensures
        ({
            let pieces = model::fragments(data, mss, n);
            &&& pieces.len() == n
            &&& forall|i: int|
                0 <= i < n ==> {
                    &&& (#[trigger] pieces[i]).frg == n - 1 - i
                    &&& pieces[i].data == data.subrange(
                        i * mss,
                        smaller((i + 1) * mss, data.len() as int),
                    )
                }
        }),
    decreases n,
{
    if n > 0 {
        let size = model::min(mss, data.len() as int);
        let rest = data.skip(size);
        let pieces = model::fragments(data, mss, n);
        let tail = model::fragments(rest, mss, (n - 1) as nat);
        assert(n * mss == (n - 1) * mss + mss) by (nonlinear_arith);
        if n > 1 {
            assert((n - 1) * mss >= mss) by (nonlinear_arith)
                requires
                    n > 1,
                    mss > 0,
            ;
            assert((n - 1) * mss == (n - 2) * mss + mss) by (nonlinear_arith);
        }
        lemma_pieces(rest, mss, (n - 1) as nat);
        assert forall|i: int| 0 <= i < n implies {
            &&& (#[trigger] pieces[i]).frg == n - 1 - i
            &&& pieces[i].data == data.subrange(i * mss, smaller((i + 1) * mss, data.len() as int))
        } by {
            if i == 0 {
                assert(0 * mss == 0 && 1 * mss == mss) by (nonlinear_arith);
                assert(data.take(size) =~= data.subrange(0, smaller(mss, data.len() as int)));
            } else {
                assert(pieces[i] == tail[i - 1]);
                assert(i * mss == (i - 1) * mss + mss && (i + 1) * mss == i * mss + mss)
                    by (nonlinear_arith);
                assert((i - 1) * mss >= 0 && i * mss <= (n - 1) * mss) by (nonlinear_arith)
                    requires
                        1 <= i <= n - 1,
                        mss > 0,
                ;
                assert(size == mss);
                assert(rest.len() == data.len() - mss);
                let a = (i - 1) * mss;
                let b = smaller(i * mss, rest.len() as int);
                assert(rest.subrange(a, b) =~= data.subrange(a + mss, b + mss));
                assert(b + mss == smaller((i + 1) * mss, data.len() as int));
            }
        }
    }
}

/// Taking a message out of a full receive window is noted to be told to the peer, once the
/// window is open again.
pub proof fn law_recv_tells_the_window(s: model::KcpState)
    requires
        model::well_formed(s),
    ensures
        ({
            let t = model::after_recv(s);
            &&& s.rcv_queue.len() >= s.rcv_wnd && t.rcv_queue.len() < t.rcv_wnd ==> t.ask_tell
            &&& s.ask_tell ==> t.ask_tell
            &&& s.rcv_queue.len() < s.rcv_wnd ==> t.ask_tell == s.ask_tell
            &&& t == (model::KcpState {
                rcv_queue: t.rcv_queue,
                rcv_buf: t.rcv_buf,
                rcv_nxt: t.rcv_nxt,
                ask_tell: t.ask_tell,
                ..s
            })
        }),
{
    let popped = model::KcpState { rcv_queue: model::after_message(s.rcv_queue), ..s };
    laws::lemma_after_message_len(s.rcv_queue);
    assert forall|i: int| 0 <= i < popped.rcv_buf.len() implies model::recv_offset(
        popped,
        (#[trigger] popped.rcv_buf[i]).sn,
    ) == model::recv_offset(s, s.rcv_buf[i].sn) by {}
    laws::lemma_move_buf(popped);
}

/// A new control block has nothing to say or to wait for, and takes its windows and times
/// from the parameters: an interval of twice the scale, a first timeout of twenty times, a
/// shortest one of three or ten times, a longest one of six thousand times, and waits from
/// 700 to 12000 times the scale before a closed window is asked for.
pub proof fn law_new_control_block(conv: u64, params: KcpParams)
    requires
        28 < params.mtu,
    ensures
        ({
            let s = model::init(conv, params);
            let scale = params.time_scale as int;
            &&& s.conv == conv
            &&& s.mtu == params.mtu
            &&& s.mss == params.mtu - 28
            &&& s.timing.interval == 2 * scale
            &&& s.rx_rto == 20 * scale
            &&& s.rx_minrto == if params.nodelay {
                3 * scale
            } else {
                10 * scale
            }
            &&& s.timing.rto_max == 6000 * scale
            &&& s.timing.probe_initial == 700 * scale
            &&& s.timing.probe_max == 12000 * scale
            &&& s.snd_wnd == params.send_window
            &&& s.rcv_wnd == params.receive_window
            &&& s.rmt_wnd == params.receive_window
            &&& s.nodelay == params.nodelay
            &&& s.fastresend == params.fast_resend
            &&& s.congestion_control == params.congestion_control
            &&& s.snd_una == 0 && s.snd_nxt == 0 && s.rcv_nxt == 0
            &&& s.ssthresh == 2 && s.cwnd == 0 && s.incr == 0
            &&& s.rx_srtt == 0 && s.rx_rttval == 0
            &&& !s.ask_send && !s.ask_tell && !s.updated
            &&& s.probe_wait == 0
            &&& s.snd_queue.len() == 0 && s.snd_buf.len() == 0
            &&& s.rcv_queue.len() == 0 && s.rcv_buf.len() == 0
            &&& s.acklist.len() == 0 && s.output.len() == 0 && s.buf.len() == 0
        }),
{
}

/// Where the fields of a segment stand on the wire, each with its least significant byte
/// first: the conversation at 0, the command at 8, the fragment at 9, the window at 10, the
/// time at 12, the serial number at 16, the next expected one at 20, the length at 24, and
/// the data from 28 on.
pub proof fn law_segment_layout(seg: model::SegmentState)
    requires
        seg.data.len() <= u32::MAX,
    ensures
        ({
            let bytes = model::encode_segment(seg);
            &&& bytes.len() == 28 + seg.data.len()
            &&& bytes[8] == seg.cmd
            &&& bytes[9] == seg.frg
            &&& bytes[10] == seg.wnd % 256 && bytes[11] == seg.wnd / 256
            &&& number_at(bytes, 12) == seg.ts
            &&& number_at(bytes, 16) == seg.sn
            &&& number_at(bytes, 20) == seg.una
            &&& number_at(bytes, 24) == seg.data.len()
            &&& number_at(bytes, 0) + 0x1_0000_0000 * number_at(bytes, 4) == seg.conv
            &&& bytes.skip(28) == seg.data
        }),
{
    let bytes = model::encode_segment(seg);
    laws::lemma_encode_len(seg);
    lemma_le4(seg.ts as nat);
    lemma_le4(seg.sn as nat);
    lemma_le4(seg.una as nat);
    lemma_le4(seg.data.len());
    lemma_le8(seg.conv as nat);
    lemma_le2(seg.wnd as nat);
    crate::octets::lemma_le_bytes_len(seg.conv as nat, 8);
    crate::octets::lemma_le_bytes_len(seg.wnd as nat, 2);
    crate::octets::lemma_le_bytes_len(seg.ts as nat, 4);
    crate::octets::lemma_le_bytes_len(seg.sn as nat, 4);
    crate::octets::lemma_le_bytes_len(seg.una as nat, 4);
    crate::octets::lemma_le_bytes_len(seg.data.len(), 4);
    assert(bytes.skip(28) =~= seg.data);
}

/// The four bytes from `at` on, least significant one first.
pub open spec fn number_at(bytes: Seq<u8>, at: int) -> int {
    bytes[at] + 256 * bytes[at + 1] + 65536 * bytes[at + 2] + 16777216 * bytes[at + 3]
}

proof fn lemma_le2(value: nat)
    requires
        value <= 0xffff,
    ensures
        crate::octets::le_bytes(value, 2).len() == 2,
        crate::octets::le_bytes(value, 2)[0] == value % 256,
        crate::octets::le_bytes(value, 2)[1] == value / 256,
{
    reveal_with_fuel(crate::octets::le_bytes, 3);
}

proof fn lemma_le4(value: nat)
    requires
        value <= 0xffff_ffff,
    ensures
        crate::octets::le_bytes(value, 4).len() == 4,
        number_at(crate::octets::le_bytes(value, 4), 0) == value,
{
    reveal_with_fuel(crate::octets::le_bytes, 5);
}

proof fn lemma_le8(value: nat)
    requires
        value <= 0xffff_ffff_ffff_ffff,
    ensures
        crate::octets::le_bytes(value, 8).len() == 8,
        number_at(crate::octets::le_bytes(value, 8), 0) + 0x1_0000_0000 * number_at(
            crate::octets::le_bytes(value, 8),
            4,
        ) == value,
{
    reveal_with_fuel(crate::octets::le_bytes, 9);
}

} // verus!
