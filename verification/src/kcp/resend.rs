//! What has not been acknowledged is kept, and goes out again.
use vstd::prelude::*;

use crate::kcp::arrival;
use crate::kcp::control::{
    KcpParams, KCP_CMD_ACK, KCP_CMD_PUSH, KCP_CMD_WASK, KCP_CMD_WINS,
};
use crate::kcp::delivery;
use crate::kcp::laws;
use crate::kcp::model;

verus! {

/// Every segment under way is a data segment of the conversation.
pub open spec fn addressed(s: model::KcpState) -> bool {
    forall|i: int|
        0 <= i < s.snd_buf.len() ==> {
            &&& (#[trigger] s.snd_buf[i]).conv == s.conv
            &&& s.snd_buf[i].cmd == KCP_CMD_PUSH
        }
}

/// The bytes are a run of whole segments that the peer takes.
pub open spec fn readable(conv: u64, bytes: Seq<u8>) -> bool
    decreases bytes.len(),
{
    bytes.len() == 0 || {
        &&& bytes.len() >= 28
        &&& model::segment_error(conv, bytes) is None
        &&& readable(conv, bytes.skip(28 + model::data_len_of(bytes)))
    }
}

/// The data segment with this serial number is in a packet that `t` has finished since `s`.
pub open spec fn goes_out(s: model::KcpState, t: model::KcpState, sn: u32) -> bool {
    exists|p: int|
        s.output.len() <= p < t.output.len() && arrival::gives(t.conv, #[trigger] t.output[p], sn)
}

/// The data segment is in the packet under construction, or in a finished one from `from` on.
spec fn written(s: model::KcpState, from: int, sn: u32) -> bool {
    ||| arrival::gives(s.conv, s.buf, sn)
    ||| exists|p: int|
        from <= p < s.output.len() && arrival::gives(s.conv, #[trigger] s.output[p], sn)
}

/// All packets from `from` on are readable, and so is the one under construction.
pub open spec fn tidy(s: model::KcpState, from: int) -> bool {
    &&& readable(s.conv, s.buf)
    &&& forall|p: int|
        from <= p < s.output.len() ==> readable(s.conv, #[trigger] s.output[p])
}

pub proof fn lemma_readable_append(conv: u64, a: Seq<u8>, b: Seq<u8>)
    requires
        readable(conv, a),
        readable(conv, b),
    ensures
        readable(conv, a + b),
        forall|sn: u32| #[trigger]
            arrival::gives(conv, a + b, sn) <==> arrival::gives(conv, a, sn) || arrival::gives(
                conv,
                b,
                sn,
            ),
    decreases a.len(),
{
    if a.len() == 0 {
        assert(a + b =~= b);
    } else {
        let len = model::data_len_of(a);
        let both = a + b;
        assert(both.subrange(24, 28) =~= a.subrange(24, 28));
        assert(both.subrange(0, 8) =~= a.subrange(0, 8));
        assert(both.subrange(10, 12) =~= a.subrange(10, 12));
        assert(both.subrange(12, 16) =~= a.subrange(12, 16));
        assert(both.subrange(16, 20) =~= a.subrange(16, 20));
        assert(both.subrange(20, 24) =~= a.subrange(20, 24));
        assert(both.subrange(28, 28 + len) =~= a.subrange(28, 28 + len));
        assert(model::decode_segment(both) == model::decode_segment(a));
        assert(both.skip(28 + len) =~= a.skip(28 + len) + b);
        let rest = a.skip(28 + len);
        lemma_readable_append(conv, rest, b);
        assert(model::segment_error(conv, both) == model::segment_error(conv, a));
        assert forall|sn: u32| #[trigger]
            arrival::gives(conv, both, sn) <==> arrival::gives(conv, a, sn) || arrival::gives(
                conv,
                b,
                sn,
            ) by {
            assert(arrival::gives(conv, rest + b, sn) <==> arrival::gives(conv, rest, sn)
                || arrival::gives(conv, b, sn));
        }
    }
}

pub proof fn lemma_encoded_readable(conv: u64, seg: model::SegmentState)
    requires
        seg.conv == conv,
        model::known_cmd(seg.cmd),
        seg.cmd != KCP_CMD_PUSH ==> seg.data.len() == 0,
        seg.data.len() <= u32::MAX,
    ensures
        readable(conv, model::encode_segment(seg)),
        seg.cmd == KCP_CMD_PUSH ==> arrival::gives(conv, model::encode_segment(seg), seg.sn),
{
    let bytes = model::encode_segment(seg);
    laws::lemma_encode_len(seg);
    laws::law_segment_roundtrip(seg, Seq::empty());
    assert(bytes + Seq::<u8>::empty() =~= bytes);
    assert(model::decode_segment(bytes).conv == seg.conv);
    assert(bytes[8] == model::decode_segment(bytes).cmd);
    assert(readable(conv, bytes.skip(28 + model::data_len_of(bytes))));
}

/// What has been written stays written, and so is what is put behind it.
proof fn lemma_put_written(s: model::KcpState, seg: model::SegmentState, from: int)
    requires
        tidy(s, from),
        seg.conv == s.conv,
        model::known_cmd(seg.cmd),
        seg.cmd != KCP_CMD_PUSH ==> seg.data.len() == 0,
        seg.data.len() <= u32::MAX,
        0 <= from <= s.output.len(),
    ensures
        ({
            let t = model::put(s, model::encode_segment(seg));
            &&& tidy(t, from)
            &&& t.conv == s.conv
            &&& s.output.len() <= t.output.len()
            &&& seg.cmd == KCP_CMD_PUSH ==> written(t, from, seg.sn)
            &&& forall|sn: u32| written(s, from, sn) ==> #[trigger] written(t, from, sn)
        }),
{
    let bytes = model::encode_segment(seg);
    let t = model::put(s, bytes);
    lemma_encoded_readable(s.conv, seg);
    lemma_readable_append(s.conv, s.buf, bytes);
    lemma_readable_append(s.conv, Seq::empty(), bytes);
    assert forall|sn: u32| written(s, from, sn) implies #[trigger] written(t, from, sn) by {
        if arrival::gives(s.conv, s.buf, sn) {
            if t.output.len() > s.output.len() {
                assert(t.output[s.output.len() as int] == s.buf);
            } else {
                assert(t.buf == s.buf + bytes);
            }
        } else {
            let p = choose|p: int|
                from <= p < s.output.len() && arrival::gives(s.conv, #[trigger] s.output[p], sn);
            assert(t.output[p] == s.output[p]);
        }
    }
    assert(arrival::gives(s.conv, t.buf, seg.sn) || seg.cmd != KCP_CMD_PUSH);
    assert forall|p: int| from <= p < t.output.len() implies readable(
        t.conv,
        #[trigger] t.output[p],
    ) by {
        if p < s.output.len() {
            assert(t.output[p] == s.output[p]);
        }
    }
}

proof fn lemma_put_acks_readable(s: model::KcpState, acks: Seq<(u32, u32)>, from: int)
    requires
        tidy(s, from),
        0 <= from <= s.output.len(),
    ensures
        ({
            let t = model::put_acks(s, acks);
            &&& tidy(t, from)
            &&& t.conv == s.conv
            &&& s.output.len() <= t.output.len()
        }),
    decreases acks.len(),
{
    if acks.len() > 0 {
        let seg = model::control_segment(s, KCP_CMD_ACK, acks[0].0, acks[0].1);
        lemma_put_written(s, seg, from);
        lemma_put_acks_readable(
            model::put(s, model::encode_segment(seg)),
            acks.drop_first(),
            from,
        );
    }
}

proof fn lemma_controls_readable(s: model::KcpState, sn: u32, ts: u32, from: int)
    requires
        tidy(s, from),
        0 <= from <= s.output.len(),
    ensures
        ({
            let t = model::flush_probes(model::probe_wnd_size(model::flush_ack(s)), sn, ts);
            &&& tidy(t, from)
            &&& t.conv == s.conv
            &&& s.output.len() <= t.output.len()
        }),
{
    lemma_put_acks_readable(s, s.acklist, from);
    let probed = model::probe_wnd_size(model::flush_ack(s));
    let ask = model::control_segment(probed, KCP_CMD_WASK, sn, ts);
    let tell = model::control_segment(probed, KCP_CMD_WINS, sn, ts);
    let asked = if probed.ask_send {
        model::put(probed, model::encode_segment(ask))
    } else {
        probed
    };
    lemma_put_written(probed, ask, from);
    lemma_put_written(asked, tell, from);
}

/// Queued segments join those under way behind them, and are sent for the first time.
proof fn lemma_admit_appends(s: model::KcpState, window: u16)
    ensures
        ({
            let t = model::admit_queued(s, window);
            &&& s.snd_buf.len() <= t.snd_buf.len()
            &&& forall|i: int|
                0 <= i < s.snd_buf.len() ==> #[trigger] t.snd_buf[i] == s.snd_buf[i]
            &&& forall|i: int|
                s.snd_buf.len() <= i < t.snd_buf.len() ==> (#[trigger] t.snd_buf[i]).xmit == 0
            &&& addressed(s) ==> addressed(t)
            &&& t.conv == s.conv
        }),
    decreases s.snd_queue.len(),
{
    if s.snd_queue.len() > 0 && model::timediff(
        s.snd_nxt,
        s.snd_una.wrapping_add(window as u32),
    ) < 0 {
        let next = model::admit_one(s);
        assert(addressed(s) ==> addressed(next)) by {
            if addressed(s) {
                assert forall|i: int| 0 <= i < next.snd_buf.len() implies {
                    &&& (#[trigger] next.snd_buf[i]).conv == next.conv
                    &&& next.snd_buf[i].cmd == KCP_CMD_PUSH
                } by {
                    if i < s.snd_buf.len() {
                        assert(next.snd_buf[i] == s.snd_buf[i]);
                    }
                }
            }
        }
        lemma_admit_appends(next, window);
        let t = model::admit_queued(s, window);
        assert forall|i: int| 0 <= i < s.snd_buf.len() implies #[trigger] t.snd_buf[i]
            == s.snd_buf[i] by {
            assert(next.snd_buf[i] == s.snd_buf[i]);
        }
        assert forall|i: int| s.snd_buf.len() <= i < t.snd_buf.len() implies (
        #[trigger] t.snd_buf[i]).xmit == 0 by {
            if i < next.snd_buf.len() {
                assert(t.snd_buf[i] == next.snd_buf[i]);
            }
        }
    }
}

proof fn lemma_put_segments_written(s: model::KcpState, n: nat, from: int)
    requires
        model::holds(s),
        addressed(s),
        tidy(s, from),
        0 <= from <= s.output.len(),
        n <= s.snd_buf.len(),
    ensures
        ({
            let t = model::put_segments(s, n);
            &&& tidy(t, from)
            &&& t.conv == s.conv
            &&& s.output.len() <= t.output.len()
            &&& forall|i: int|
                0 <= i < n && !(model::sending(s, #[trigger] s.snd_buf[i]) is Keep) ==> written(
                    t,
                    from,
                    s.snd_buf[i].sn,
                )
        }),
    decreases n,
{
    if n > 0 {
        lemma_put_segments_written(s, (n - 1) as nat, from);
        let seg = s.snd_buf[n - 1];
        let before = model::put_segments(s, (n - 1) as nat);
        let sent = model::transmit(s, seg);
        lemma_put_written(before, sent, from);
        let t = model::put_segments(s, n);
        assert forall|i: int|
            0 <= i < n && !(model::sending(s, #[trigger] s.snd_buf[i]) is Keep) implies written(
            t,
            from,
            s.snd_buf[i].sn,
        ) by {
            if i < n - 1 {
                assert(written(before, from, s.snd_buf[i].sn));
            }
        }
    }
}

/// What holds of a sender before its segments are decided about.
pub proof fn lemma_ready(s: model::KcpState)
    requires
        model::well_formed(s),
        addressed(s),
    ensures
        ({
            let ready = model::before_segments(s);
            &&& model::holds(ready)
            &&& addressed(ready)
            &&& tidy(ready, s.output.len() as int)
            &&& ready.conv == s.conv
            &&& ready.current == s.current
            &&& ready.fastresend == s.fastresend
            &&& ready.timing == s.timing
            &&& s.output.len() <= ready.output.len()
            &&& s.snd_buf.len() <= ready.snd_buf.len()
            &&& forall|i: int|
                0 <= i < s.snd_buf.len() ==> #[trigger] ready.snd_buf[i] == s.snd_buf[i]
            &&& forall|i: int|
                s.snd_buf.len() <= i < ready.snd_buf.len() ==> (#[trigger] ready.snd_buf[i]).xmit
                    == 0
        }),
{
    let (sn, ts) = model::last_ack(s);
    laws::lemma_controls_hold(s, sn, ts);
    laws::lemma_put_acks_holds(s, s.acklist);
    lemma_controls_readable(s, sn, ts, s.output.len() as int);
    let controls = model::flush_probes(model::probe_wnd_size(model::flush_ack(s)), sn, ts);
    assert(addressed(controls));
    let window = model::send_window(controls);
    lemma_admit_appends(controls, window);
    laws::lemma_admit_queued_holds(controls, window);
}

/// What a flush leaves of a sender that is ready.
pub proof fn lemma_flushed_form(s: model::KcpState)
    requires
        model::well_formed(s),
    ensures
        ({
            let ready = model::before_segments(s);
            let put = model::put_segments(ready, ready.snd_buf.len());
            let t = model::flushed(s);
            &&& t.conv == ready.conv
            &&& t.snd_buf.len() == ready.snd_buf.len()
            &&& forall|i: int|
                0 <= i < t.snd_buf.len() ==> #[trigger] t.snd_buf[i] == model::transmit(
                    ready,
                    ready.snd_buf[i],
                )
            &&& t.output == if put.buf.len() > 0 {
                put.output.push(put.buf)
            } else {
                put.output
            }
        }),
{
    laws::lemma_flushed_well_formed(s);
    let ready = model::before_segments(s);
    laws::lemma_put_segments_holds(ready, ready.snd_buf.len());
}

/// A flush sends every segment that is due, and every one that it gives a serial number to:
/// those behind the segments under way. None is lost or changed.
pub proof fn law_flush_sends_what_is_due(s: model::KcpState)
    requires
        model::well_formed(s),
        addressed(s),
    ensures
        ({
            let t = model::flushed(s);
            &&& s.snd_buf.len() <= t.snd_buf.len()
            &&& forall|i: int|
                0 <= i < s.snd_buf.len() ==> {
                    &&& (#[trigger] t.snd_buf[i]).sn == s.snd_buf[i].sn
                    &&& delivery::piece(t.snd_buf[i]) == delivery::piece(s.snd_buf[i])
                }
            &&& forall|i: int|
                0 <= i < t.snd_buf.len() && (i < s.snd_buf.len() ==> !(model::sending(
                    s,
                    s.snd_buf[i],
                ) is Keep)) ==> goes_out(s, t, (#[trigger] t.snd_buf[i]).sn)
        }),
{
    lemma_ready(s);
    lemma_flushed_form(s);
    let ready = model::before_segments(s);
    let n = ready.snd_buf.len();
    let from = s.output.len() as int;
    lemma_put_segments_written(ready, n, from);
    let put = model::put_segments(ready, n);
    let t = model::flushed(s);
    assert forall|i: int|
        0 <= i < t.snd_buf.len() && (i < s.snd_buf.len() ==> !(model::sending(
            s,
            s.snd_buf[i],
        ) is Keep)) implies goes_out(s, t, (#[trigger] t.snd_buf[i]).sn) by {
        let seg = ready.snd_buf[i];
        if i < s.snd_buf.len() {
            assert(seg == s.snd_buf[i]);
            assert(model::sending(ready, seg) == model::sending(s, seg));
        }
        assert(written(put, from, seg.sn));
        lemma_written_goes_out(s, put, t, seg.sn);
    }
}

proof fn lemma_written_goes_out(
    s: model::KcpState,
    put: model::KcpState,
    t: model::KcpState,
    sn: u32,
)
    requires
        written(put, s.output.len() as int, sn),
        s.output.len() <= put.output.len(),
        t.conv == put.conv,
        t.output == if put.buf.len() > 0 {
            put.output.push(put.buf)
        } else {
            put.output
        },
    ensures
        goes_out(s, t, sn),
{
    if arrival::gives(put.conv, put.buf, sn) {
        assert(t.output[put.output.len() as int] == put.buf);
    } else {
        let p = choose|p: int|
            s.output.len() <= p < put.output.len() && arrival::gives(
                put.conv,
                #[trigger] put.output[p],
                sn,
            );
        assert(t.output[p] == put.output[p]);
    }
}

/// A flush makes packets that the peer takes whole: runs of whole segments of the
/// conversation, with nothing behind the last one.
pub proof fn law_flush_makes_readable_packets(s: model::KcpState, p: int)
    requires
        model::well_formed(s),
        addressed(s),
        s.output.len() <= p < model::flushed(s).output.len(),
    ensures
        readable(s.conv, model::flushed(s).output[p]),
        model::flushed(s).output[p].len() > 0,
{
    lemma_ready(s);
    lemma_flushed_form(s);
    laws::lemma_flushed_well_formed(s);
    let ready = model::before_segments(s);
    let n = ready.snd_buf.len();
    lemma_put_segments_written(ready, n, s.output.len() as int);
    let put = model::put_segments(ready, n);
    let t = model::flushed(s);
    if p < put.output.len() {
        assert(t.output[p] == put.output[p]);
    }
}

/// A packet is taken exactly where it is made of whole segments of the conversation, with a
/// known command each, data in pushes alone and nothing behind the last one. Then all of it
/// is taken.
pub proof fn law_whole_packets_are_taken(s: model::KcpState, current: u32, bytes: Seq<u8>)
    ensures
        model::input_at(s, current, bytes).1 is Ok <==> bytes.len() > 0 && readable(s.conv, bytes),
        model::input_at(s, current, bytes).1 matches Ok(n) ==> n == bytes.len() as usize,
{
    let now = model::KcpState { current, ..s };
    lemma_scan_reads(
        model::InputScan { state: now, acked: false, max_ack: 0, latest_ts: 0 },
        bytes,
    );
}

proof fn lemma_scan_reads(scan: model::InputScan, bytes: Seq<u8>)
    ensures
        model::scan_segments(scan, bytes).1 is Ok <==> readable(scan.state.conv, bytes),
    decreases bytes.len(),
{
    if bytes.len() > 0 && model::segment_error(scan.state.conv, bytes) is None {
        let seg = model::decode_segment(bytes);
        lemma_apply_segment_sender(scan, seg);
        lemma_scan_reads(
            model::apply_segment(scan, seg),
            bytes.skip(28 + model::data_len_of(bytes)),
        );
    }
}

proof fn lemma_put_keeps_output(s: model::KcpState, bytes: Seq<u8>)
    ensures
        ({
            let t = model::put(s, bytes);
            &&& s.output.len() <= t.output.len()
            &&& t.output.take(s.output.len() as int) == s.output
        }),
{
}

proof fn lemma_put_acks_keep_output(s: model::KcpState, acks: Seq<(u32, u32)>)
    ensures
        ({
            let t = model::put_acks(s, acks);
            &&& s.output.len() <= t.output.len()
            &&& t.output.take(s.output.len() as int) == s.output
        }),
    decreases acks.len(),
{
    if acks.len() > 0 {
        let bytes = model::encode_segment(
            model::control_segment(s, KCP_CMD_ACK, acks[0].0, acks[0].1),
        );
        let next = model::put(s, bytes);
        let t = model::put_acks(s, acks);
        lemma_put_keeps_output(s, bytes);
        lemma_put_acks_keep_output(next, acks.drop_first());
        assert(t.output.take(s.output.len() as int) =~= next.output.take(s.output.len() as int));
    }
}

proof fn lemma_put_segments_keep_output(s: model::KcpState, n: nat)
    ensures
        ({
            let t = model::put_segments(s, n);
            &&& s.output.len() <= t.output.len()
            &&& t.output.take(s.output.len() as int) == s.output
        }),
    decreases n,
{
    if n > 0 {
        let before = model::put_segments(s, (n - 1) as nat);
        let t = model::put_segments(s, n);
        lemma_put_segments_keep_output(s, (n - 1) as nat);
        lemma_put_keeps_output(
            before,
            model::encode_segment(model::transmit(s, s.snd_buf[n - 1])),
        );
        assert(t.output.take(s.output.len() as int) =~= before.output.take(s.output.len() as int));
    }
}

/// A flush puts its packets behind those that are finished already.
pub proof fn lemma_flush_keeps_output(s: model::KcpState)
    requires
        model::well_formed(s),
    ensures
        ({
            let t = model::flushed(s);
            &&& s.output.len() <= t.output.len()
            &&& forall|p: int| 0 <= p < s.output.len() ==> #[trigger] t.output[p] == s.output[p]
        }),
{
    let (sn, ts) = model::last_ack(s);
    let probed = model::probe_wnd_size(model::flush_ack(s));
    lemma_put_acks_keep_output(s, s.acklist);
    let ask = model::encode_segment(model::control_segment(probed, KCP_CMD_WASK, sn, ts));
    let tell = model::encode_segment(model::control_segment(probed, KCP_CMD_WINS, sn, ts));
    let asked = if probed.ask_send {
        model::put(probed, ask)
    } else {
        probed
    };
    lemma_put_keeps_output(probed, ask);
    lemma_put_keeps_output(asked, tell);
    let controls = model::flush_probes(probed, sn, ts);
    laws::lemma_controls_hold(s, sn, ts);
    laws::lemma_admit_queued_holds(controls, model::send_window(controls));
    let ready = model::before_segments(s);
    let n = ready.snd_buf.len();
    lemma_put_segments_keep_output(ready, n);
    lemma_flushed_form(s);
    let put = model::put_segments(ready, n);
    let t = model::flushed(s);
    assert forall|p: int| 0 <= p < s.output.len() implies #[trigger] t.output[p]
        == s.output[p] by {
        assert(probed.output.take(s.output.len() as int)[p] == s.output[p]);
        assert(asked.output.take(probed.output.len() as int)[p] == probed.output[p]
            || asked.output == probed.output);
        assert(put.output.take(ready.output.len() as int)[p] == ready.output[p]);
    }
}

/// No segment has to wait longer than the first one.
pub proof fn lemma_resend_wait(queue: Seq<model::SegmentState>, current: u32, i: int)
    requires
        0 <= i < queue.len(),
    ensures
        0 <= model::resend_wait(queue, current) <= model::max(
            model::timediff(queue[i].resendts, current),
            0,
        ),
    decreases queue.len(),
{
    reveal_with_fuel(model::resend_wait, 2);
    let rest = queue.drop_last();
    if rest.len() > 0 {
        lemma_resend_wait(rest, current, 0);
        if i < rest.len() {
            lemma_resend_wait(rest, current, i);
        }
    }
}

/// A segment whose time has come goes out again with the next flush of the timers.
pub proof fn law_overdue_segment_goes_out_again(s: model::KcpState, current: u32, i: int)
    requires
        model::well_formed(s),
        addressed(s),
        0 <= i < s.snd_buf.len(),
        model::timediff(current, s.snd_buf[i].resendts) >= 0,
        model::tick(s, current).1,
    ensures
        goes_out(s, model::update(s, current), s.snd_buf[i].sn),
        model::update(s, current).snd_buf[i].sn == s.snd_buf[i].sn,
{
    let ticked = model::tick(s, current).0;
    laws::lemma_same_queues(s, ticked);
    law_flush_sends_what_is_due(ticked);
    let t = model::flushed(ticked);
    assert(goes_out(ticked, t, t.snd_buf[i].sn));
    let p = choose|p: int|
        ticked.output.len() <= p < t.output.len() && arrival::gives(
            t.conv,
            #[trigger] t.output[p],
            t.snd_buf[i].sn,
        );
    assert(arrival::gives(t.conv, t.output[p], s.snd_buf[i].sn));
}

/// A segment that goes out is due again before long: after the longest timeout and an eighth
/// of it at the latest.
pub proof fn law_resend_is_not_put_off(s: model::KcpState, i: int)
    requires
        model::well_formed(s),
        addressed(s),
        0 <= i < model::flushed(s).snd_buf.len(),
        i < s.snd_buf.len() ==> !(model::sending(s, s.snd_buf[i]) is Keep),
    ensures
        ({
            let wait = model::timediff(model::flushed(s).snd_buf[i].resendts, s.current);
            0 <= wait <= s.timing.rto_max + s.timing.rto_max as int / 8
        }),
{
    lemma_ready(s);
    lemma_flushed_form(s);
    let ready = model::before_segments(s);
    let seg = ready.snd_buf[i];
    let again = model::transmit(ready, seg);
    if i < s.snd_buf.len() {
        assert(seg == s.snd_buf[i]);
        assert(model::sending(ready, seg) == model::sending(s, seg));
    }
    assert(seg.rto <= ready.timing.rto_max);
    assert(ready.rx_rto <= ready.timing.rto_max);
    assert(ready.timing.rto_max <= 1_530_000);
    let wait = again.resendts.wrapping_sub(ready.current);
    assert(wait <= ready.timing.rto_max + ready.timing.rto_max as int / 8);
}

/// The packet acknowledges the serial number, on its own or with all before it.
pub open spec fn acknowledges(conv: u64, bytes: Seq<u8>, sn: u32) -> bool
    decreases bytes.len(),
{
    bytes.len() >= 28 && model::segment_error(conv, bytes) is None && {
        let seg = model::decode_segment(bytes);
        ||| model::timediff(seg.una, sn) > 0
        ||| seg.cmd == KCP_CMD_ACK && seg.sn == sn
        ||| acknowledges(conv, bytes.skip(28 + model::data_len_of(bytes)), sn)
    }
}

/// The two are the same segment; one may have been overtaken more often.
pub open spec fn same_segment(a: model::SegmentState, b: model::SegmentState) -> bool {
    a == (model::SegmentState { fastack: a.fastack, ..b })
}

proof fn lemma_drop_acked_keeps(queue: Seq<model::SegmentState>, una: u32)
    ensures
        forall|seg: model::SegmentState|
            #![trigger queue.contains(seg)]
            #![trigger model::drop_acked(queue, una).contains(seg)]
            {
                &&& model::drop_acked(queue, una).contains(seg) ==> queue.contains(seg)
                &&& queue.contains(seg) && model::timediff(una, seg.sn) <= 0 ==> model::drop_acked(
                    queue,
                    una,
                ).contains(seg)
            },
    decreases queue.len(),
{
    if queue.len() > 0 && model::timediff(una, queue[0].sn) > 0 {
        let rest = queue.drop_first();
        lemma_drop_acked_keeps(rest, una);
        assert forall|seg: model::SegmentState|
            #![trigger queue.contains(seg)]
            #![trigger model::drop_acked(queue, una).contains(seg)]
            {
                &&& model::drop_acked(queue, una).contains(seg) ==> queue.contains(seg)
                &&& queue.contains(seg) && model::timediff(una, seg.sn) <= 0 ==> model::drop_acked(
                    queue,
                    una,
                ).contains(seg)
            } by {
            if rest.contains(seg) {
                let k = choose|k: int| 0 <= k < rest.len() && rest[k] == seg;
                assert(queue[k + 1] == seg);
            }
            if queue.contains(seg) {
                let k = choose|k: int| 0 <= k < queue.len() && queue[k] == seg;
                if k > 0 {
                    assert(rest[k - 1] == seg);
                }
            }
        }
    }
}

pub proof fn lemma_remove_sn_keeps(queue: Seq<model::SegmentState>, sn: u32)
    ensures
        forall|seg: model::SegmentState|
            #![trigger queue.contains(seg)]
            #![trigger model::remove_sn(queue, sn).contains(seg)]
            {
                &&& model::remove_sn(queue, sn).contains(seg) ==> queue.contains(seg)
                &&& queue.contains(seg) && seg.sn != sn ==> model::remove_sn(
                    queue,
                    sn,
                ).contains(seg)
            },
    decreases queue.len(),
{
    if queue.len() > 0 && sn >= queue[0].sn {
        let rest = queue.drop_first();
        let left = model::remove_sn(queue, sn);
        lemma_remove_sn_keeps(rest, sn);
        assert forall|seg: model::SegmentState|
            #![trigger queue.contains(seg)]
            #![trigger left.contains(seg)]
            {
                &&& left.contains(seg) ==> queue.contains(seg)
                &&& queue.contains(seg) && seg.sn != sn ==> left.contains(seg)
            } by {
            if left.contains(seg) {
                let k = choose|k: int| 0 <= k < left.len() && left[k] == seg;
                if queue[0].sn == sn {
                    assert(queue[k + 1] == seg);
                } else if k == 0 {
                    assert(queue[0] == seg);
                } else {
                    assert(model::remove_sn(rest, sn)[k - 1] == seg);
                    assert(rest.contains(seg));
                    let j = choose|j: int| 0 <= j < rest.len() && rest[j] == seg;
                    assert(queue[j + 1] == seg);
                }
            }
            if queue.contains(seg) && seg.sn != sn {
                let k = choose|k: int| 0 <= k < queue.len() && queue[k] == seg;
                if k == 0 {
                    assert(left[0] == seg);
                } else {
                    assert(rest[k - 1] == seg);
                    if queue[0].sn != sn {
                        let more = model::remove_sn(rest, sn);
                        assert(more.contains(seg));
                        let j = choose|j: int| 0 <= j < more.len() && more[j] == seg;
                        assert(left[j + 1] == seg);
                    }
                }
            }
        }
    }
}

proof fn lemma_move_buf_sender(s: model::KcpState)
    ensures
        model::move_buf(s).snd_buf == s.snd_buf,
        model::move_buf(s).conv == s.conv,
    decreases s.rcv_buf.len(),
{
    if s.rcv_buf.len() > 0 && s.rcv_buf[0].sn == s.rcv_nxt && s.rcv_queue.len() < s.rcv_wnd {
        lemma_move_buf_sender(
            model::KcpState {
                rcv_nxt: s.rcv_nxt.wrapping_add(1),
                rcv_buf: s.rcv_buf.drop_first(),
                rcv_queue: s.rcv_queue.push(s.rcv_buf[0]),
                ..s
            },
        );
    }
}

/// One segment of the peer takes away what it acknowledges, and nothing else.
proof fn lemma_apply_segment_sender(scan: model::InputScan, seg: model::SegmentState)
    ensures
        ({
            let s = scan.state;
            let t = model::apply_segment(scan, seg).state;
            &&& t.conv == s.conv
            &&& forall|x: model::SegmentState|
                #![trigger s.snd_buf.contains(x)]
                #![trigger t.snd_buf.contains(x)]
                {
                    &&& t.snd_buf.contains(x) ==> s.snd_buf.contains(x)
                    &&& s.snd_buf.contains(x) && model::timediff(seg.una, x.sn) <= 0 && !(seg.cmd
                        == KCP_CMD_ACK && seg.sn == x.sn) ==> t.snd_buf.contains(x)
                }
        }),
{
    let s = scan.state;
    lemma_drop_acked_keeps(s.snd_buf, seg.una);
    let una = model::parse_una(model::KcpState { rmt_wnd: seg.wnd, ..s }, seg.una);
    if seg.cmd == KCP_CMD_ACK {
        lemma_remove_sn_keeps(una.snd_buf, seg.sn);
    } else if seg.cmd == KCP_CMD_PUSH {
        let acking = model::KcpState { acklist: una.acklist.push((seg.sn, seg.ts)), ..una };
        lemma_move_buf_sender(
            model::KcpState { rcv_buf: model::insert_ordered(acking.rcv_buf, seg), ..acking },
        );
    }
}

proof fn lemma_scan_sender(scan: model::InputScan, bytes: Seq<u8>)
    ensures
        ({
            let s = scan.state;
            let t = model::scan_segments(scan, bytes).0.state;
            &&& t.conv == s.conv
            &&& forall|x: model::SegmentState|
                #![trigger s.snd_buf.contains(x)]
                #![trigger t.snd_buf.contains(x)]
                {
                    &&& t.snd_buf.contains(x) ==> s.snd_buf.contains(x)
                    &&& s.snd_buf.contains(x) && !acknowledges(s.conv, bytes, x.sn)
                        ==> t.snd_buf.contains(x)
                }
        }),
    decreases bytes.len(),
{
    if bytes.len() >= 28 && model::segment_error(scan.state.conv, bytes) is None {
        let seg = model::decode_segment(bytes);
        let next = model::apply_segment(scan, seg);
        let rest = bytes.skip(28 + model::data_len_of(bytes));
        lemma_apply_segment_sender(scan, seg);
        lemma_scan_sender(next, rest);
        let s = scan.state;
        let t = model::scan_segments(scan, bytes).0.state;
        assert(t == model::scan_segments(next, rest).0.state);
        assert forall|x: model::SegmentState|
            #![trigger s.snd_buf.contains(x)]
            #![trigger t.snd_buf.contains(x)]
            {
                &&& t.snd_buf.contains(x) ==> s.snd_buf.contains(x)
                &&& s.snd_buf.contains(x) && !acknowledges(s.conv, bytes, x.sn)
                    ==> t.snd_buf.contains(x)
            } by {
            assert(next.state.snd_buf.contains(x) || !next.state.snd_buf.contains(x));
            assert(acknowledges(s.conv, bytes, x.sn) || !acknowledges(s.conv, rest, x.sn));
        }
    }
}

proof fn lemma_fastack_same(queue: Seq<model::SegmentState>, sn: u32, ts: u32)
    ensures
        model::fastack_all(queue, sn, ts).len() == queue.len(),
        forall|i: int|
            0 <= i < queue.len() ==> same_segment(
                #[trigger] model::fastack_all(queue, sn, ts)[i],
                queue[i],
            ),
    decreases queue.len(),
{
    if queue.len() > 0 && model::timediff(sn, queue[0].sn) >= 0 {
        let rest = queue.drop_first();
        lemma_fastack_same(rest, sn, ts);
        let all = model::fastack_all(queue, sn, ts);
        assert forall|i: int| 0 <= i < queue.len() implies same_segment(
            #[trigger] all[i],
            queue[i],
        ) by {
            if i > 0 {
                assert(all[i] == model::fastack_all(rest, sn, ts)[i - 1]);
                assert(rest[i - 1] == queue[i]);
            }
        }
    }
}

/// A segment stays under way until a packet of the peer acknowledges it, and no packet brings
/// others.
pub proof fn law_only_acknowledged_segments_leave(s: model::KcpState, current: u32, bytes: Seq<u8>)
    ensures
        ({
            let t = model::input_at(s, current, bytes).0;
            &&& t.conv == s.conv
            &&& forall|j: int|
                0 <= j < s.snd_buf.len() && !acknowledges(
                    s.conv,
                    bytes,
                    (#[trigger] s.snd_buf[j]).sn,
                ) ==> exists|k: int|
                    0 <= k < t.snd_buf.len() && same_segment(#[trigger] t.snd_buf[k], s.snd_buf[j])
            &&& forall|k: int|
                0 <= k < t.snd_buf.len() ==> exists|j: int|
                    0 <= j < s.snd_buf.len() && same_segment(
                        #[trigger] t.snd_buf[k],
                        #[trigger] s.snd_buf[j],
                    )
        }),
{
    let now = model::KcpState { current, ..s };
    let t = model::input_at(s, current, bytes).0;
    if bytes.len() < 28 {
        assert forall|j: int| 0 <= j < s.snd_buf.len() implies same_segment(
            t.snd_buf[j],
            #[trigger] s.snd_buf[j],
        ) by {}
    } else {
        let start = model::InputScan { state: now, acked: false, max_ack: 0, latest_ts: 0 };
        let (scan, result) = model::scan_segments(start, bytes);
        let queue = scan.state.snd_buf;
        lemma_scan_sender(start, bytes);
        lemma_fastack_same(queue, scan.max_ack, scan.latest_ts);
        assert(t.snd_buf.len() == queue.len());
        assert forall|k: int| 0 <= k < queue.len() implies same_segment(
            #[trigger] t.snd_buf[k],
            queue[k],
        ) by {}
        assert forall|j: int|
            0 <= j < s.snd_buf.len() && !acknowledges(
                s.conv,
                bytes,
                (#[trigger] s.snd_buf[j]).sn,
            ) implies exists|k: int|
            0 <= k < t.snd_buf.len() && same_segment(#[trigger] t.snd_buf[k], s.snd_buf[j]) by {
            assert(s.snd_buf.contains(s.snd_buf[j]));
            assert(queue.contains(s.snd_buf[j]));
            let k = choose|k: int| 0 <= k < queue.len() && queue[k] == s.snd_buf[j];
            assert(same_segment(t.snd_buf[k], s.snd_buf[j]));
        }
        assert forall|k: int| 0 <= k < t.snd_buf.len() implies exists|j: int|
            0 <= j < s.snd_buf.len() && same_segment(
                #[trigger] t.snd_buf[k],
                #[trigger] s.snd_buf[j],
            ) by {
            assert(queue.contains(queue[k]));
            assert(s.snd_buf.contains(queue[k]));
            let j = choose|j: int| 0 <= j < s.snd_buf.len() && s.snd_buf[j] == queue[k];
            assert(same_segment(t.snd_buf[k], s.snd_buf[j]));
        }
    }
}

proof fn lemma_flushed_addressed(s: model::KcpState)
    requires
        model::well_formed(s),
        addressed(s),
    ensures
        addressed(model::flushed(s)),
{
    lemma_ready(s);
    lemma_flushed_form(s);
    let ready = model::before_segments(s);
    let t = model::flushed(s);
    assert forall|i: int| 0 <= i < t.snd_buf.len() implies {
        &&& (#[trigger] t.snd_buf[i]).conv == t.conv
        &&& t.snd_buf[i].cmd == KCP_CMD_PUSH
    } by {
        assert(t.snd_buf[i] == model::transmit(ready, ready.snd_buf[i]));
    }
}

pub proof fn lemma_input_addressed(s: model::KcpState, current: u32, bytes: Seq<u8>)
    requires
        addressed(s),
    ensures
        addressed(model::input_at(s, current, bytes).0),
{
    law_only_acknowledged_segments_leave(s, current, bytes);
    let t = model::input_at(s, current, bytes).0;
    assert forall|k: int| 0 <= k < t.snd_buf.len() implies {
        &&& (#[trigger] t.snd_buf[k]).conv == t.conv
        &&& t.snd_buf[k].cmd == KCP_CMD_PUSH
    } by {
        let j = choose|j: int|
            0 <= j < s.snd_buf.len() && same_segment(t.snd_buf[k], #[trigger] s.snd_buf[j]);
    }
}

/// What is under way belongs to the conversation: it is so from the start, and sending,
/// taking in packets, handing on messages and updating keep it so.
pub proof fn law_sender_is_addressed(
    s: model::KcpState,
    conv: u64,
    params: KcpParams,
    current: u32,
    bytes: Seq<u8>,
)
    requires
        model::well_formed(s),
        addressed(s),
    ensures
        addressed(model::init(conv, params)),
        addressed(model::send(s, bytes).0),
        addressed(model::input_at(s, current, bytes).0),
        addressed(model::after_recv(s)),
        addressed(model::flushed(s)),
        addressed(model::update(s, current)),
{
    lemma_input_addressed(s, current, bytes);
    lemma_move_buf_sender(
        model::KcpState { rcv_queue: model::after_message(s.rcv_queue), ..s },
    );
    lemma_flushed_addressed(s);
    let ticked = model::tick(s, current).0;
    laws::lemma_same_queues(s, ticked);
    assert(addressed(ticked));
    lemma_flushed_addressed(ticked);
}

/// A lost packet is made good. A segment of the sender `s` whose time has come is in a packet
/// that the next flush of its timers finishes, and a receiver `r` of the conversation that
/// takes this packet has the segment, where it lies in the window. `i` is the index of the
/// segment in the stream, `base` that of the first one that `r` has not handed on.
pub proof fn law_lost_segment_arrives_later(
    s: model::KcpState,
    current: u32,
    j: int,
    r: model::KcpState,
    arrival_time: u32,
    base: int,
    i: int,
)
    requires
        model::well_formed(s),
        addressed(s),
        0 <= j < s.snd_buf.len(),
        model::timediff(current, s.snd_buf[j].resendts) >= 0,
        model::tick(s, current).1,
        model::well_formed(r),
        r.conv == s.conv,
        0 <= base,
        r.rcv_nxt == (base + r.rcv_queue.len()) % 0x1_0000_0000,
        s.snd_buf[j].sn == arrival::serial(i),
        arrival::near(i, base),
        i < base + r.rcv_wnd,
    ensures
        ({
            let packets = model::update(s, current).output;
            exists|p: int|
                s.output.len() <= p < packets.len() && ({
                    let t = model::input_at(r, arrival_time, #[trigger] packets[p]).0;
                    arrival::has_segment(t, base + t.rcv_queue.len(), i)
                })
        }),
{
    law_overdue_segment_goes_out_again(s, current, j);
    let sent = model::update(s, current);
    let sn = s.snd_buf[j].sn;
    let p = choose|p: int|
        s.output.len() <= p < sent.output.len() && arrival::gives(
            sent.conv,
            #[trigger] sent.output[p],
            sn,
        );
    laws::lemma_update_frame(s, current);
    arrival::law_input_keeps_every_segment(r, arrival_time, sent.output[p], base);
    let t = model::input_at(r, arrival_time, sent.output[p]).0;
    assert(arrival::gives(r.conv, sent.output[p], arrival::serial(i)));
    assert(arrival::has_segment(t, base + t.rcv_queue.len(), i));
}

} // verus!
