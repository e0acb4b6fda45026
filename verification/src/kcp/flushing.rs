//! What a flush says to the peer, and when it says it again.
use vstd::prelude::*;

use crate::kcp::control::{KCP_CMD_ACK, KCP_CMD_PUSH, KCP_CMD_WASK, KCP_CMD_WINS};
use crate::kcp::laws;
use crate::kcp::model;
use crate::kcp::resend;

verus! {

// ---------------------------------------------------------------------------
// What packets say
// ---------------------------------------------------------------------------

/// The segments of a packet, one after the other.
pub open spec fn segments_in(bytes: Seq<u8>) -> Seq<model::SegmentState>
    decreases bytes.len(),
{
    if bytes.len() < 28 || bytes.len() < 28 + model::data_len_of(bytes) {
        Seq::empty()
    } else {
        seq![model::decode_segment(bytes)] + segments_in(
            bytes.skip(28 + model::data_len_of(bytes)),
        )
    }
}

/// The segments of the packets from `from` on.
pub open spec fn all_said(output: Seq<Seq<u8>>, from: int) -> Seq<model::SegmentState>
    decreases output.len(),
{
    if output.len() <= from || output.len() == 0 {
        Seq::empty()
    } else {
        all_said(output.drop_last(), from) + segments_in(output.last())
    }
}

spec fn said(s: model::KcpState, from: int) -> Seq<model::SegmentState> {
    all_said(s.output, from) + segments_in(s.buf)
}

/// The two moments are less than half the number circle apart, and `now` is not before `then`.
pub open spec fn reached(now: u32, then: u32) -> bool {
    (now - then) % 0x1_0000_0000 < 0x8000_0000
}

/// The later of two amounts.
pub open spec fn greater(a: int, b: int) -> int {
    if a < b {
        b
    } else {
        a
    }
}

/// The smaller of two amounts.
pub open spec fn smaller(a: int, b: int) -> int {
    if a < b {
        a
    } else {
        b
    }
}

/// The peer has overtaken the segment often enough to send it again at once, and that has
/// not been tried too often.
pub open spec fn overtaken(s: model::KcpState, seg: model::SegmentState) -> bool {
    s.fastresend is Some && seg.fastack >= s.fastresend->0 && seg.xmit <= 5
}

/// A segment under way goes out: for the first time, because its time has come, or because
/// it has been overtaken.
pub open spec fn due(s: model::KcpState, seg: model::SegmentState) -> bool {
    seg.xmit == 0 || reached(s.current, seg.resendts) || overtaken(s, seg)
}

/// A segment of the conversation without data, with the free part of the receive window and
/// the next serial number that is expected.
pub open spec fn word(s: model::KcpState, cmd: u8, sn: u32, ts: u32) -> model::SegmentState {
    model::SegmentState {
        conv: s.conv,
        cmd,
        frg: 0,
        wnd: (s.rcv_wnd - s.rcv_queue.len()) as u16,
        ts,
        sn,
        una: s.rcv_nxt,
        resendts: 0,
        rto: 0,
        fastack: 0,
        xmit: 0,
        data: Seq::empty(),
    }
}

/// The data segments among the first `n` of `t` that a flush of `s` sends.
pub open spec fn data_said(s: model::KcpState, t: model::KcpState, n: nat) -> Seq<
    model::SegmentState,
>
    decreases n,
{
    if n == 0 {
        Seq::empty()
    } else {
        let before = data_said(s, t, (n - 1) as nat);
        if n - 1 >= s.snd_buf.len() || due(s, s.snd_buf[n - 1]) {
            before.push(laws::on_the_wire(t.snd_buf[n - 1]))
        } else {
            before
        }
    }
}

proof fn lemma_reached(now: u32, then: u32)
    ensures
        reached(now, then) == (model::timediff(now, then) >= 0),
{
}

proof fn lemma_due(s: model::KcpState, seg: model::SegmentState)
    ensures
        due(s, seg) == !(model::sending(s, seg) is Keep),
        model::sending(s, seg) is Timeout == (seg.xmit > 0 && reached(s.current, seg.resendts)),
        model::sending(s, seg) is Fast == (seg.xmit > 0 && !reached(s.current, seg.resendts)
            && overtaken(s, seg)),
        model::sending(s, seg) is First == (seg.xmit == 0),
{
    lemma_reached(s.current, seg.resendts);
}

proof fn lemma_segments_append(conv: u64, a: Seq<u8>, b: Seq<u8>)
    requires
        resend::readable(conv, a),
    ensures
        segments_in(a + b) == segments_in(a) + segments_in(b),
    decreases a.len(),
{
    if a.len() == 0 {
        assert(a + b =~= b);
        assert(segments_in(a) =~= Seq::empty());
        assert(Seq::<model::SegmentState>::empty() + segments_in(b) =~= segments_in(b));
    } else {
        let len = model::data_len_of(a);
        let both = a + b;
        assert(both.subrange(24, 28) =~= a.subrange(24, 28));
        assert(both.subrange(0, 8) =~= a.subrange(0, 8));
        assert(both.subrange(10, 12) =~= a.subrange(10, 12));
        assert(both.subrange(12, 16) =~= a.subrange(12, 16));
        assert(both.subrange(16, 20) =~= a.subrange(16, 20));
        assert(both.subrange(20, 24) =~= a.subrange(20, 24));
        assert(both.subrange(28, 28 + len) =~= a.subrange(28, 28 + len));
        assert(model::decode_segment(both) == model::decode_segment(a));
        let rest = a.skip(28 + len);
        assert(both.skip(28 + len) =~= rest + b);
        lemma_segments_append(conv, rest, b);
        assert(segments_in(both) =~= segments_in(a) + segments_in(b));
    }
}

proof fn lemma_segments_one(seg: model::SegmentState)
    requires
        seg.data.len() <= u32::MAX,
    ensures
        segments_in(model::encode_segment(seg)) == seq![laws::on_the_wire(seg)],
{
    let bytes = model::encode_segment(seg);
    laws::lemma_encode_len(seg);
    laws::law_segment_roundtrip(seg, Seq::empty());
    assert(bytes + Seq::<u8>::empty() =~= bytes);
    reveal_with_fuel(segments_in, 2);
    assert(segments_in(bytes) =~= seq![laws::on_the_wire(seg)]);
}

/// One more segment has been said.
proof fn lemma_put_says(s: model::KcpState, seg: model::SegmentState, from: int)
    requires
        resend::tidy(s, from),
        seg.conv == s.conv,
        model::known_cmd(seg.cmd),
        seg.cmd != KCP_CMD_PUSH ==> seg.data.len() == 0,
        seg.data.len() <= u32::MAX,
        0 <= from <= s.output.len(),
    ensures
        ({
            let t = model::put(s, model::encode_segment(seg));
            &&& said(t, from) == said(s, from).push(laws::on_the_wire(seg))
            &&& resend::tidy(t, from)
            &&& from <= t.output.len()
            &&& t == (model::KcpState { buf: t.buf, output: t.output, ..s })
        }),
{
    let bytes = model::encode_segment(seg);
    let t = model::put(s, bytes);
    resend::lemma_encoded_readable(s.conv, seg);
    resend::lemma_readable_append(s.conv, s.buf, bytes);
    lemma_segments_append(s.conv, s.buf, bytes);
    lemma_segments_one(seg);
    let empty = Seq::<u8>::empty();
    assert(empty + bytes =~= bytes);
    if t.output.len() > s.output.len() {
        assert(t.output == s.output.push(s.buf));
        assert(t.output.drop_last() =~= s.output);
        assert(said(t, from) =~= said(s, from).push(laws::on_the_wire(seg)));
    } else {
        if s.buf.len() + bytes.len() > s.mtu {
            assert(s.buf =~= empty);
            assert(segments_in(s.buf) =~= Seq::empty());
        }
        assert(said(t, from) =~= said(s, from).push(laws::on_the_wire(seg)));
    }
    assert forall|p: int| from <= p < t.output.len() implies resend::readable(
        t.conv,
        #[trigger] t.output[p],
    ) by {
        if p < s.output.len() {
            assert(t.output[p] == s.output[p]);
        }
    }
}

spec fn acks_of(s: model::KcpState, acks: Seq<(u32, u32)>) -> Seq<model::SegmentState> {
    Seq::new(acks.len(), |i: int| word(s, 82, acks[i].0, acks[i].1))
}

proof fn lemma_word(s: model::KcpState, cmd: u8, sn: u32, ts: u32)
    requires
        s.rcv_queue.len() <= s.rcv_wnd,
    ensures
        laws::on_the_wire(model::control_segment(s, cmd, sn, ts)) == word(s, cmd, sn, ts),
{
}

proof fn lemma_put_acks_say(s: model::KcpState, acks: Seq<(u32, u32)>, from: int)
    requires
        resend::tidy(s, from),
        s.rcv_queue.len() <= s.rcv_wnd,
        0 <= from <= s.output.len(),
    ensures
        ({
            let t = model::put_acks(s, acks);
            &&& said(t, from) == said(s, from) + acks_of(s, acks)
            &&& resend::tidy(t, from)
            &&& from <= t.output.len()
            &&& t == (model::KcpState { buf: t.buf, output: t.output, ..s })
        }),
    decreases acks.len(),
{
    if acks.len() > 0 {
        let seg = model::control_segment(s, KCP_CMD_ACK, acks[0].0, acks[0].1);
        lemma_put_says(s, seg, from);
        lemma_word(s, KCP_CMD_ACK, acks[0].0, acks[0].1);
        let next = model::put(s, model::encode_segment(seg));
        let rest = acks.drop_first();
        lemma_put_acks_say(next, rest, from);
        assert(acks_of(s, acks) =~= seq![word(s, 82, acks[0].0, acks[0].1)] + acks_of(s, rest));
        assert(acks_of(next, rest) =~= acks_of(s, rest));
        assert(said(model::put_acks(s, acks), from) =~= said(s, from) + acks_of(s, acks));
    } else {
        assert(said(s, from) + acks_of(s, acks) =~= said(s, from));
    }
}

/// The closed window of the peer has to be asked for now.
pub open spec fn asks_now(s: model::KcpState) -> bool {
    s.ask_send || (s.rmt_wnd == 0 && s.probe_wait != 0 && reached(s.current, s.ts_probe))
}

spec fn asking(s: model::KcpState) -> Seq<model::SegmentState> {
    let (sn, ts) = model::last_ack(s);
    if asks_now(s) {
        seq![word(s, 83, sn, ts)]
    } else {
        Seq::empty()
    }
}

spec fn telling(s: model::KcpState) -> Seq<model::SegmentState> {
    let (sn, ts) = model::last_ack(s);
    if s.ask_tell {
        seq![word(s, 84, sn, ts)]
    } else {
        Seq::empty()
    }
}

spec fn controls_of(s: model::KcpState) -> model::KcpState {
    let (sn, ts) = model::last_ack(s);
    model::flush_probes(model::probe_wnd_size(model::flush_ack(s)), sn, ts)
}

proof fn lemma_controls_say(s: model::KcpState)
    requires
        model::well_formed(s),
    ensures
        ({
            let t = controls_of(s);
            let from = s.output.len() as int;
            &&& said(t, from) == acks_of(s, s.acklist) + asking(s) + telling(s)
            &&& resend::tidy(t, from)
            &&& from <= t.output.len()
            &&& t == (model::KcpState {
                buf: t.buf,
                output: t.output,
                acklist: Seq::empty(),
                ask_send: false,
                ask_tell: false,
                ts_probe: t.ts_probe,
                probe_wait: t.probe_wait,
                ..s
            })
            &&& t.ts_probe == model::probe_wnd_size(s).ts_probe
            &&& t.probe_wait == model::probe_wnd_size(s).probe_wait
        }),
{
    let from = s.output.len() as int;
    let (sn, ts) = model::last_ack(s);
    assert(said(s, from) =~= Seq::empty());
    lemma_put_acks_say(s, s.acklist, from);
    let acked = model::flush_ack(s);
    let probed = model::probe_wnd_size(acked);
    lemma_reached(s.current, s.ts_probe);
    assert(probed.ask_send == asks_now(s));
    let ask = model::control_segment(probed, KCP_CMD_WASK, sn, ts);
    let tell = model::control_segment(probed, KCP_CMD_WINS, sn, ts);
    lemma_word(probed, KCP_CMD_WASK, sn, ts);
    lemma_word(probed, KCP_CMD_WINS, sn, ts);
    assert(word(probed, 83, sn, ts) == word(s, 83, sn, ts));
    assert(word(probed, 84, sn, ts) == word(s, 84, sn, ts));
    let asked = if probed.ask_send {
        model::put(probed, model::encode_segment(ask))
    } else {
        probed
    };
    assert(said(probed, from) == said(model::put_acks(s, s.acklist), from));
    lemma_put_says(probed, ask, from);
    assert(said(asked, from) =~= acks_of(s, s.acklist) + asking(s));
    lemma_put_says(asked, tell, from);
    assert(said(controls_of(s), from) =~= acks_of(s, s.acklist) + asking(s) + telling(s));
}

// ---------------------------------------------------------------------------
// Queued segments
// ---------------------------------------------------------------------------

/// How many segments may be under way: as many as both windows allow, and the congestion
/// window where it counts.
pub open spec fn allowance(s: model::KcpState) -> int {
    let flow = smaller(s.snd_wnd as int, s.rmt_wnd as int);
    if s.congestion_control {
        smaller(flow, s.cwnd as int)
    } else {
        flow
    }
}

/// How many serial numbers have been given out since the first one that is unacknowledged.
pub open spec fn span(s: model::KcpState) -> int {
    (s.snd_nxt - s.snd_una) % 0x1_0000_0000
}

/// How many queued segments a flush gives serial numbers to.
pub open spec fn admits(s: model::KcpState) -> int {
    smaller(s.snd_queue.len() as int, greater(allowance(s) - span(s), 0))
}

proof fn lemma_admitted(s: model::KcpState, window: u16, k: int)
    requires
        model::holds(s),
        k == smaller(s.snd_queue.len() as int, greater(window - span(s), 0)),
    ensures
        ({
            let t = model::admit_queued(s, window);
            &&& t.snd_queue == s.snd_queue.skip(k)
            &&& t.snd_nxt == (s.snd_nxt + k) % 0x1_0000_0000
            &&& t.snd_buf.len() == s.snd_buf.len() + k
            &&& forall|i: int|
                0 <= i < s.snd_buf.len() ==> #[trigger] t.snd_buf[i] == s.snd_buf[i]
            &&& forall|i: int|
                s.snd_buf.len() <= i < t.snd_buf.len() ==> {
                    let j = i - s.snd_buf.len();
                    &&& (#[trigger] t.snd_buf[i]).sn == (s.snd_nxt + j) % 0x1_0000_0000
                    &&& t.snd_buf[i].xmit == 0
                    &&& t.snd_buf[i].fastack == 0
                    &&& t.snd_buf[i].conv == s.conv
                    &&& t.snd_buf[i].cmd == 81
                    &&& t.snd_buf[i].frg == s.snd_queue[j].frg
                    &&& t.snd_buf[i].data == s.snd_queue[j].data
                }
        }),
    decreases s.snd_queue.len(),
{
    let off = model::send_offset(s, s.snd_nxt);
    assert(off == span(s));
    assert(model::timediff(s.snd_nxt, s.snd_una.wrapping_add(window as u32)) < 0 <==> off
        < window);
    if s.snd_queue.len() > 0 && off < window {
        let next = model::admit_one(s);
        laws::lemma_admit_one_holds(s, window);
        assert(model::send_offset(next, next.snd_nxt) == off + 1);
        assert(span(next) == off + 1);
        lemma_admitted(next, window, k - 1);
        let t = model::admit_queued(s, window);
        assert(next.snd_queue.skip(k - 1) =~= s.snd_queue.skip(k));
        assert forall|i: int| 0 <= i < s.snd_buf.len() implies #[trigger] t.snd_buf[i]
            == s.snd_buf[i] by {
            assert(next.snd_buf[i] == s.snd_buf[i]);
        }
        assert forall|i: int| s.snd_buf.len() <= i < t.snd_buf.len() implies {
            let j = i - s.snd_buf.len();
            &&& (#[trigger] t.snd_buf[i]).sn == (s.snd_nxt + j) % 0x1_0000_0000
            &&& t.snd_buf[i].xmit == 0
            &&& t.snd_buf[i].fastack == 0
            &&& t.snd_buf[i].conv == s.conv
            &&& t.snd_buf[i].cmd == 81
            &&& t.snd_buf[i].frg == s.snd_queue[j].frg
            &&& t.snd_buf[i].data == s.snd_queue[j].data
        } by {
            let j = i - s.snd_buf.len();
            if j == 0 {
                assert(t.snd_buf[i] == next.snd_buf[i]);
            } else {
                assert(next.snd_queue[j - 1] == s.snd_queue[j]);
                assert((next.snd_nxt + (j - 1)) % 0x1_0000_0000 == (s.snd_nxt + j)
                    % 0x1_0000_0000);
            }
        }
    } else {
        assert(s.snd_queue.skip(0) =~= s.snd_queue);
    }
}

/// The state in which the segments are decided about.
proof fn lemma_ready_state(s: model::KcpState)
    requires
        model::well_formed(s),
        resend::addressed(s),
    ensures
        ({
            let ready = model::before_segments(s);
            let k = admits(s);
            &&& model::holds(ready)
            &&& resend::addressed(ready)
            &&& resend::tidy(ready, s.output.len() as int)
            &&& s.output.len() <= ready.output.len()
            &&& said(ready, s.output.len() as int) == acks_of(s, s.acklist) + asking(s) + telling(
                s,
            )
            &&& ready == (model::KcpState {
                snd_nxt: ready.snd_nxt,
                snd_queue: ready.snd_queue,
                snd_buf: ready.snd_buf,
                buf: ready.buf,
                output: ready.output,
                acklist: Seq::empty(),
                ask_send: false,
                ask_tell: false,
                ts_probe: model::probe_wnd_size(s).ts_probe,
                probe_wait: model::probe_wnd_size(s).probe_wait,
                ..s
            })
            &&& model::send_window(ready) == allowance(s)
            &&& ready.snd_queue == s.snd_queue.skip(k)
            &&& ready.snd_nxt == (s.snd_nxt + k) % 0x1_0000_0000
            &&& ready.snd_buf.len() == s.snd_buf.len() + k
            &&& forall|i: int|
                0 <= i < s.snd_buf.len() ==> #[trigger] ready.snd_buf[i] == s.snd_buf[i]
            &&& forall|i: int|
                s.snd_buf.len() <= i < ready.snd_buf.len() ==> {
                    let j = i - s.snd_buf.len();
                    &&& (#[trigger] ready.snd_buf[i]).sn == (s.snd_nxt + j) % 0x1_0000_0000
                    &&& ready.snd_buf[i].xmit == 0
                    &&& ready.snd_buf[i].fastack == 0
                    &&& ready.snd_buf[i].conv == s.conv
                    &&& ready.snd_buf[i].cmd == 81
                    &&& ready.snd_buf[i].frg == s.snd_queue[j].frg
                    &&& ready.snd_buf[i].data == s.snd_queue[j].data
                }
        }),
{
    resend::lemma_ready(s);
    lemma_controls_say(s);
    let (sn, ts) = model::last_ack(s);
    laws::lemma_controls_hold(s, sn, ts);
    let controls = controls_of(s);
    let window = model::send_window(controls);
    laws::lemma_admit_queued_holds(controls, window);
    assert(window == allowance(s));
    lemma_admitted(controls, window, admits(s));
}

proof fn lemma_put_segments_say(
    s: model::KcpState,
    t: model::KcpState,
    ready: model::KcpState,
    n: nat,
    from: int,
)
    requires
        model::holds(ready),
        resend::addressed(ready),
        resend::tidy(ready, from),
        0 <= from <= ready.output.len(),
        n <= ready.snd_buf.len(),
        s.current == ready.current,
        s.fastresend == ready.fastresend,
        s.snd_buf.len() <= ready.snd_buf.len() == t.snd_buf.len(),
        forall|i: int| 0 <= i < s.snd_buf.len() ==> #[trigger] ready.snd_buf[i] == s.snd_buf[i],
        forall|i: int|
            s.snd_buf.len() <= i < ready.snd_buf.len() ==> (#[trigger] ready.snd_buf[i]).xmit == 0,
        forall|i: int|
            0 <= i < t.snd_buf.len() ==> #[trigger] t.snd_buf[i] == model::transmit(
                ready,
                ready.snd_buf[i],
            ),
    ensures
        ({
            let u = model::put_segments(ready, n);
            &&& said(u, from) == said(ready, from) + data_said(s, t, n)
            &&& resend::tidy(u, from)
            &&& from <= u.output.len()
            &&& u == (model::KcpState { buf: u.buf, output: u.output, ..ready })
        }),
    decreases n,
{
    if n > 0 {
        lemma_put_segments_say(s, t, ready, (n - 1) as nat, from);
        let before = model::put_segments(ready, (n - 1) as nat);
        let seg = ready.snd_buf[n - 1];
        lemma_due(ready, seg);
        assert(t.snd_buf[n - 1] == model::transmit(ready, seg));
        lemma_put_says(before, model::transmit(ready, seg), from);
        if n - 1 < s.snd_buf.len() {
            assert(due(s, s.snd_buf[n - 1]) == due(ready, seg));
        }
        assert(said(model::put_segments(ready, n), from) =~= said(ready, from) + data_said(
            s,
            t,
            n,
        ));
    } else {
        assert(said(ready, from) + data_said(s, t, n) =~= said(ready, from));
    }
}

/// What a flush says, in order: an acknowledgement of each segment that has come since the
/// last flush, with its serial number and time; a question for the window of the peer, where
/// it is closed and the time to ask has come; the own window, where it was asked for; and
/// every segment that is due, as it is kept afterwards. Nothing else is said.
pub proof fn law_flush_says(s: model::KcpState)
    requires
        model::well_formed(s),
        resend::addressed(s),
    ensures
        ({
            let t = model::flushed(s);
            let words = all_said(t.output, s.output.len() as int);
            let last = if s.acklist.len() > 0 {
                s.acklist.last()
            } else {
                (0u32, 0u32)
            };
            let acks = Seq::new(
                s.acklist.len(),
                |i: int| word(s, 82, s.acklist[i].0, s.acklist[i].1),
            );
            let ask = if asks_now(s) {
                seq![word(s, 83, last.0, last.1)]
            } else {
                Seq::empty()
            };
            let tell = if s.ask_tell {
                seq![word(s, 84, last.0, last.1)]
            } else {
                Seq::empty()
            };
            &&& words == acks + ask + tell + data_said(s, t, t.snd_buf.len())
            &&& t.acklist.len() == 0
            &&& !t.ask_send
            &&& !t.ask_tell
        }),
{
    let from = s.output.len() as int;
    let t = model::flushed(s);
    let ready = model::before_segments(s);
    lemma_ready_state(s);
    resend::lemma_flushed_form(s);
    let n = ready.snd_buf.len();
    lemma_put_segments_say(s, t, ready, n, from);
    let put = model::put_segments(ready, n);
    let acks = Seq::new(
        s.acklist.len(),
        |i: int| word(s, 82, s.acklist[i].0, s.acklist[i].1),
    );
    assert(acks_of(s, s.acklist) =~= acks);
    if put.buf.len() > 0 {
        assert(t.output.drop_last() =~= put.output);
        assert(all_said(t.output, from) =~= said(put, from));
    } else {
        assert(segments_in(put.buf) =~= Seq::empty());
        assert(all_said(t.output, from) =~= said(put, from));
    }
}

/// What becomes of the segments in a flush. A segment that is not due stays as it is. One
/// whose time has come is sent again, and waits longer for its answer than before, up to the
/// longest timeout. One that has been overtaken is sent again with its old timeout. Queued
/// segments follow in order, with the next serial numbers, as many as the window has room
/// for, and wait as long as the round trip estimate says. Whatever is sent carries the time,
/// the next serial number that is expected and the free part of the receive window.
pub proof fn law_flush_schedules(s: model::KcpState)
    requires
        model::well_formed(s),
        resend::addressed(s),
    ensures
        ({
            let t = model::flushed(s);
            let k = admits(s);
            &&& t.snd_queue == s.snd_queue.skip(k)
            &&& t.snd_nxt == (s.snd_nxt + k) % 0x1_0000_0000
            &&& t.snd_una == s.snd_una
            &&& t.snd_buf.len() == s.snd_buf.len() + k
            &&& forall|i: int|
                0 <= i < s.snd_buf.len() ==> rescheduled(
                    s,
                    s.snd_buf[i],
                    #[trigger] t.snd_buf[i],
                )
            &&& forall|i: int|
                s.snd_buf.len() <= i < t.snd_buf.len() ==> first_sent(
                    s,
                    i - s.snd_buf.len(),
                    #[trigger] t.snd_buf[i],
                )
        }),
{
    let t = model::flushed(s);
    let ready = model::before_segments(s);
    lemma_ready_state(s);
    resend::lemma_flushed_form(s);
    laws::lemma_put_segments_holds(ready, ready.snd_buf.len());
    assert forall|i: int| 0 <= i < s.snd_buf.len() implies rescheduled(
        s,
        s.snd_buf[i],
        #[trigger] t.snd_buf[i],
    ) by {
        let old = s.snd_buf[i];
        assert(ready.snd_buf[i] == old);
        lemma_rescheduled(s, ready, old);
    }
    assert forall|i: int| s.snd_buf.len() <= i < t.snd_buf.len() implies first_sent(
        s,
        i - s.snd_buf.len(),
        #[trigger] t.snd_buf[i],
    ) by {
        lemma_first_sent(s, ready, i - s.snd_buf.len(), ready.snd_buf[i]);
    }
}

/// The state that matters to a single segment.
spec fn same_moment(s: model::KcpState, ready: model::KcpState) -> bool {
    &&& ready.current == s.current
    &&& ready.fastresend == s.fastresend
    &&& ready.nodelay == s.nodelay
    &&& ready.timing == s.timing
    &&& ready.rx_rto == s.rx_rto
    &&& ready.rcv_nxt == s.rcv_nxt
    &&& ready.rcv_wnd == s.rcv_wnd
    &&& ready.rcv_queue == s.rcv_queue
    &&& s.rcv_queue.len() <= s.rcv_wnd
    &&& s.timing.rto_max <= 1_530_000
    &&& s.rx_rto <= s.timing.rto_max
}

proof fn lemma_rescheduled(s: model::KcpState, ready: model::KcpState, old: model::SegmentState)
    requires
        same_moment(s, ready),
        old.rto <= s.timing.rto_max,
    ensures
        rescheduled(s, old, model::transmit(ready, old)),
{
    lemma_due(ready, old);
    assert(due(ready, old) == due(s, old));
}

proof fn lemma_first_sent(
    s: model::KcpState,
    ready: model::KcpState,
    j: int,
    seg: model::SegmentState,
)
    requires
        same_moment(s, ready),
        seg.sn == (s.snd_nxt + j) % 0x1_0000_0000,
        seg.xmit == 0,
        seg.fastack == 0,
        seg.conv == s.conv,
        seg.cmd == 81,
        seg.frg == s.snd_queue[j].frg,
        seg.data == s.snd_queue[j].data,
    ensures
        first_sent(s, j, model::transmit(ready, seg)),
{
}

/// What a flush makes of a segment under way.
pub open spec fn rescheduled(
    s: model::KcpState,
    old: model::SegmentState,
    new: model::SegmentState,
) -> bool {
    &&& !due(s, old) ==> new == old
    &&& due(s, old) ==> sent_now(s, old, new)
    &&& old.xmit > 0 && reached(s.current, old.resendts) ==> {
        &&& new.rto == smaller(
            if s.nodelay {
                old.rto + old.rto as int / 2
            } else {
                old.rto + greater(old.rto as int, s.rx_rto as int)
            },
            s.timing.rto_max as int,
        )
        &&& new.resendts == (s.current + new.rto) % 0x1_0000_0000
        &&& new.fastack == old.fastack
    }
    &&& old.xmit > 0 && !reached(s.current, old.resendts) && overtaken(s, old) ==> {
        &&& new.rto == old.rto
        &&& new.resendts == (s.current + new.rto) % 0x1_0000_0000
        &&& new.fastack == 0
    }
}

/// What a flush makes of queued segment `j`.
pub open spec fn first_sent(s: model::KcpState, j: int, new: model::SegmentState) -> bool {
    &&& new == (model::SegmentState {
        conv: s.conv,
        cmd: 81,
        frg: s.snd_queue[j].frg,
        wnd: (s.rcv_wnd - s.rcv_queue.len()) as u16,
        ts: s.current,
        sn: ((s.snd_nxt + j) % 0x1_0000_0000) as u32,
        una: s.rcv_nxt,
        resendts: new.resendts,
        rto: s.rx_rto,
        fastack: 0,
        xmit: 1,
        data: s.snd_queue[j].data,
    })
    &&& new.resendts == (s.current + s.rx_rto + if s.nodelay {
        0
    } else {
        s.rx_rto as int / 8
    }) % 0x1_0000_0000
}

/// The segment `new` is `old`, sent at this moment.
pub open spec fn sent_now(
    s: model::KcpState,
    old: model::SegmentState,
    new: model::SegmentState,
) -> bool {
    new == (model::SegmentState {
        ts: s.current,
        wnd: (s.rcv_wnd - s.rcv_queue.len()) as u16,
        una: s.rcv_nxt,
        xmit: ((old.xmit + 1) % 0x1_0000_0000) as u32,
        rto: new.rto,
        resendts: new.resendts,
        fastack: new.fastack,
        ..old
    })
}

// ---------------------------------------------------------------------------
// Windows and timers
// ---------------------------------------------------------------------------

/// Some segment under way is sent again because its time has come.
pub open spec fn any_late(s: model::KcpState) -> bool {
    exists|i: int|
        0 <= i < s.snd_buf.len() && (#[trigger] s.snd_buf[i]).xmit > 0 && reached(
            s.current,
            s.snd_buf[i].resendts,
        )
}

/// Some segment under way is sent again because it has been overtaken.
pub open spec fn any_overtaken(s: model::KcpState) -> bool {
    exists|i: int|
        0 <= i < s.snd_buf.len() && (#[trigger] s.snd_buf[i]).xmit > 0 && !reached(
            s.current,
            s.snd_buf[i].resendts,
        ) && overtaken(s, s.snd_buf[i])
}

proof fn lemma_any_sent(s: model::KcpState, ready: model::KcpState)
    requires
        s.current == ready.current,
        s.fastresend == ready.fastresend,
        s.snd_buf.len() <= ready.snd_buf.len(),
        forall|i: int| 0 <= i < s.snd_buf.len() ==> #[trigger] ready.snd_buf[i] == s.snd_buf[i],
        forall|i: int|
            s.snd_buf.len() <= i < ready.snd_buf.len() ==> (#[trigger] ready.snd_buf[i]).xmit == 0,
    ensures
        model::any_sent(ready, ready.snd_buf.len(), model::Sending::Timeout) == any_late(s),
        model::any_sent(ready, ready.snd_buf.len(), model::Sending::Fast) == any_overtaken(s),
{
    let n = ready.snd_buf.len();
    if any_late(s) {
        let i = choose|i: int|
            0 <= i < s.snd_buf.len() && (#[trigger] s.snd_buf[i]).xmit > 0 && reached(
                s.current,
                s.snd_buf[i].resendts,
            );
        assert(ready.snd_buf[i] == s.snd_buf[i]);
        lemma_due(ready, ready.snd_buf[i]);
        assert(model::sending(ready, ready.snd_buf[i]) == model::Sending::Timeout);
    }
    if any_overtaken(s) {
        let i = choose|i: int|
            0 <= i < s.snd_buf.len() && (#[trigger] s.snd_buf[i]).xmit > 0 && !reached(
                s.current,
                s.snd_buf[i].resendts,
            ) && overtaken(s, s.snd_buf[i]);
        assert(ready.snd_buf[i] == s.snd_buf[i]);
        lemma_due(ready, ready.snd_buf[i]);
        assert(model::sending(ready, ready.snd_buf[i]) == model::Sending::Fast);
    }
    if model::any_sent(ready, n, model::Sending::Timeout) {
        let i = choose|i: int|
            0 <= i < n && #[trigger] model::sending(ready, ready.snd_buf[i])
                == model::Sending::Timeout;
        lemma_due(ready, ready.snd_buf[i]);
        assert(s.snd_buf[i] == ready.snd_buf[i]);
    }
    if model::any_sent(ready, n, model::Sending::Fast) {
        let i = choose|i: int|
            0 <= i < n && #[trigger] model::sending(ready, ready.snd_buf[i])
                == model::Sending::Fast;
        lemma_due(ready, ready.snd_buf[i]);
        assert(s.snd_buf[i] == ready.snd_buf[i]);
    }
}

/// What a flush does to the congestion window. After a loss it starts again at one, and the
/// threshold is half of what was allowed; after an overtaken segment the threshold is half of
/// what is under way, and the window as much and what the overtaking took. No threshold is
/// below two and no window below one. Nothing else about the windows, the round trip or what
/// has been received changes.
pub proof fn law_flush_adjusts_the_window(s: model::KcpState)
    requires
        model::well_formed(s),
        resend::addressed(s),
    ensures
        ({
            let t = model::flushed(s);
            &&& any_late(s) ==> {
                &&& t.cwnd == 1
                &&& t.ssthresh == greater(allowance(s) / 2, 2)
                &&& t.incr == s.mss
            }
            &&& !any_late(s) && any_overtaken(s) ==> {
                &&& t.ssthresh == greater(span(t) / 2, 2)
                &&& t.cwnd == smaller(t.ssthresh + s.fastresend->0, 0xffff)
                &&& t.incr == t.cwnd * s.mss
            }
            &&& !any_late(s) && !any_overtaken(s) ==> {
                &&& t.ssthresh == s.ssthresh
                &&& s.cwnd > 0 ==> t.cwnd == s.cwnd && t.incr == s.incr
                &&& s.cwnd == 0 ==> t.cwnd == 1 && t.incr == s.mss
            }
            &&& t == (model::KcpState {
                snd_nxt: t.snd_nxt,
                snd_queue: t.snd_queue,
                snd_buf: t.snd_buf,
                acklist: t.acklist,
                ask_send: t.ask_send,
                ask_tell: t.ask_tell,
                ts_probe: t.ts_probe,
                probe_wait: t.probe_wait,
                output: t.output,
                ssthresh: t.ssthresh,
                cwnd: t.cwnd,
                incr: t.incr,
                ..s
            })
        }),
{
    let t = model::flushed(s);
    let ready = model::before_segments(s);
    lemma_ready_state(s);
    let n = ready.snd_buf.len();
    laws::lemma_put_segments_holds(ready, n);
    lemma_any_sent(s, ready);
    laws::lemma_sent_well_formed(ready);
    let put = model::put_segments(ready, n);
    let sent = model::emit(
        model::KcpState {
            snd_buf: Seq::new(n, |i: int| model::transmit(ready, ready.snd_buf[i])),
            ..put
        },
    );
    lemma_adjusted(sent, allowance(s), any_late(s), any_overtaken(s));
    assert(sent.buf =~= s.buf);
}

/// What congestion control makes of the windows.
proof fn lemma_adjusted(sent: model::KcpState, window: int, late: bool, fast: bool)
    requires
        model::well_formed(sent),
        0 <= window <= 0xffff,
    ensures
        ({
            let t = model::adjust_window(sent, window as u16, late, fast);
            &&& late ==> t.cwnd == 1 && t.ssthresh == greater(window / 2, 2) && t.incr == sent.mss
            &&& !late && fast ==> {
                &&& t.ssthresh == greater(span(sent) / 2, 2)
                &&& t.cwnd == smaller(t.ssthresh + sent.fastresend->0, 0xffff)
                &&& t.incr == t.cwnd * sent.mss
            }
            &&& !late && !fast ==> {
                &&& t.ssthresh == sent.ssthresh
                &&& sent.cwnd > 0 ==> t.cwnd == sent.cwnd && t.incr == sent.incr
                &&& sent.cwnd == 0 ==> t.cwnd == 1 && t.incr == sent.mss
            }
            &&& t == (model::KcpState {
                ssthresh: t.ssthresh,
                cwnd: t.cwnd,
                incr: t.incr,
                ..sent
            })
        }),
{
    laws::lemma_adjust_window(sent, window as u16, late, fast);
    let inflight = sent.snd_nxt.wrapping_sub(sent.snd_una) as int;
    assert(model::send_offset(sent, sent.snd_nxt) == inflight);
    assert(inflight == span(sent));
    let half = model::max(inflight / 2, 2);
    let cwnd = model::min(half + sent.fastresend->0, 0xffff);
    assert(0 <= cwnd * sent.mss <= u64::MAX);
}

/// When the peer is asked for its window. An open window is not asked for. A closed one is
/// asked for after the first wait, and then again and again, each wait half as long again as
/// the one before, up to the longest.
pub proof fn law_flush_asks_for_the_window(s: model::KcpState)
    requires
        model::well_formed(s),
        resend::addressed(s),
    ensures
        ({
            let t = model::flushed(s);
            &&& s.rmt_wnd > 0 ==> t.probe_wait == 0 && t.ts_probe == 0
            &&& s.rmt_wnd == 0 && s.probe_wait == 0 ==> {
                &&& t.probe_wait == s.timing.probe_initial
                &&& t.ts_probe == (s.current + t.probe_wait) % 0x1_0000_0000
            }
            &&& s.rmt_wnd == 0 && s.probe_wait > 0 && reached(s.current, s.ts_probe) ==> {
                let base = greater(s.probe_wait as int, s.timing.probe_initial as int);
                &&& t.probe_wait == smaller(base + base / 2, s.timing.probe_max as int)
                &&& t.ts_probe == (s.current + t.probe_wait) % 0x1_0000_0000
            }
            &&& s.rmt_wnd == 0 && s.probe_wait > 0 && !reached(s.current, s.ts_probe) ==> {
                &&& t.probe_wait == s.probe_wait
                &&& t.ts_probe == s.ts_probe
            }
        }),
{
    let ready = model::before_segments(s);
    lemma_ready_state(s);
    laws::lemma_put_segments_holds(ready, ready.snd_buf.len());
    lemma_reached(s.current, s.ts_probe);
}

/// A flush is due: none has been made, the time of the next one has come, or the clock has
/// jumped by ten seconds.
pub open spec fn flush_is_due(s: model::KcpState, current: u32) -> bool {
    ||| !s.updated
    ||| reached(current, s.ts_flush)
    ||| (s.ts_flush - current) % 0x1_0000_0000 > 10000
}

/// Running the timers sets the clock, and flushes where a flush is due. The next one follows
/// within the interval: where the timers run late by less than the interval, at the time that
/// was planned for it.
pub proof fn law_update_flushes_when_due(s: model::KcpState, current: u32)
    requires
        s.timing.bounded(),
    ensures
        ({
            let t = model::update(s, current);
            if flush_is_due(s, current) {
                t == model::flushed(
                    model::KcpState {
                        current,
                        updated: true,
                        ts_flush: next_flush(s, current),
                        ..s
                    },
                )
            } else {
                t == (model::KcpState { current, ..s })
            }
        }),
{
    lemma_tick(s, current);
}

/// When the next flush is planned for after one at `current`.
pub open spec fn next_flush(s: model::KcpState, current: u32) -> u32 {
    let late = (current - s.ts_flush) % 0x1_0000_0000;
    if s.updated && late < s.timing.interval {
        ((s.ts_flush + s.timing.interval) % 0x1_0000_0000) as u32
    } else {
        ((current + s.timing.interval) % 0x1_0000_0000) as u32
    }
}

proof fn lemma_tick(s: model::KcpState, current: u32)
    requires
        s.timing.bounded(),
    ensures
        model::tick(s, current).1 == flush_is_due(s, current),
        flush_is_due(s, current) ==> model::tick(s, current).0 == (model::KcpState {
            current,
            updated: true,
            ts_flush: next_flush(s, current),
            ..s
        }),
        !flush_is_due(s, current) ==> model::tick(s, current).0 == (model::KcpState {
            current,
            ..s
        }),
{
    lemma_reached(current, s.ts_flush);
}

/// How long the timers may rest: not at all where a flush is due, and otherwise until the
/// first of the next flush, the first segment whose time comes, and the interval.
pub proof fn law_check_waits_for_the_first(s: model::KcpState, current: u32)
    requires
        s.timing.bounded(),
    ensures
        ({
            let wait = model::check(s, current);
            let flush = (s.ts_flush - current) % 0x1_0000_0000;
            &&& flush_is_due(s, current) ==> wait == 0
            &&& !flush_is_due(s, current) ==> {
                &&& 0 <= wait <= flush
                &&& wait <= s.timing.interval
                &&& forall|i: int|
                    0 <= i < s.snd_buf.len() ==> wait <= ahead(
                        current,
                        (#[trigger] s.snd_buf[i]).resendts,
                    )
                &&& wait == flush || wait == s.timing.interval || exists|i: int|
                    0 <= i < s.snd_buf.len() && wait == ahead(
                        current,
                        (#[trigger] s.snd_buf[i]).resendts,
                    )
            }
        }),
{
    lemma_reached(current, s.ts_flush);
    lemma_resend_wait_exact(s.snd_buf, current);
}

/// How far `then` lies ahead of `now`, where it does.
pub open spec fn ahead(now: u32, then: u32) -> int {
    let distance = (then - now) % 0x1_0000_0000;
    if distance < 0x8000_0000 {
        distance
    } else {
        0
    }
}

proof fn lemma_resend_wait_exact(queue: Seq<model::SegmentState>, current: u32)
    ensures
        ({
            let wait = model::resend_wait(queue, current);
            &&& 0 <= wait <= u32::MAX
            &&& forall|i: int|
                0 <= i < queue.len() ==> wait <= ahead(current, (#[trigger] queue[i]).resendts)
            &&& wait == u32::MAX || exists|i: int|
                0 <= i < queue.len() && wait == ahead(current, (#[trigger] queue[i]).resendts)
        }),
    decreases queue.len(),
{
    if queue.len() > 0 {
        let rest = queue.drop_last();
        let last = queue.last();
        lemma_resend_wait_exact(rest, current);
        let wait = model::resend_wait(queue, current);
        let before = model::resend_wait(rest, current);
        assert(wait == model::min(ahead(current, last.resendts), before));
        assert forall|i: int| 0 <= i < queue.len() implies wait <= ahead(
            current,
            (#[trigger] queue[i]).resendts,
        ) by {
            if i < rest.len() {
                assert(rest[i] == queue[i]);
                assert(before <= ahead(current, rest[i].resendts));
            }
        }
        if wait == before && wait != u32::MAX {
            let i = choose|i: int|
                0 <= i < rest.len() && before == ahead(current, (#[trigger] rest[i]).resendts);
            assert(wait == ahead(current, queue[i].resendts));
        } else if wait != u32::MAX {
            assert(wait == ahead(current, queue[queue.len() - 1].resendts));
        }
    }
}

} // verus!
