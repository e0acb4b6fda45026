//! Ordered delivery of messages from one end of a conversation to the other: nothing comes out
//! but what the peer has sent, without gap, repetition or exchange.
use vstd::prelude::*;

use crate::kcp::control::{
    KcpParams, KCP_CMD_ACK, KCP_CMD_PUSH, KCP_CMD_WASK, KCP_CMD_WINS,
};
use crate::kcp::laws;
use crate::kcp::model;

verus! {

/// Number and bytes of a segment, as far as they belong to the message.
pub open spec fn piece(seg: model::SegmentState) -> (u8, Seq<u8>) {
    (seg.frg, seg.data)
}

/// How many segments the message takes.
pub open spec fn count_of(message: Seq<u8>, mss: int) -> int {
    model::fragment_count(message.len(), mss)
}

/// The index of the first segment of message `k`, among the segments of all messages.
pub open spec fn first_of(messages: spec_fn(int) -> Seq<u8>, mss: int, k: int) -> int
    decreases k,
{
    if k <= 0 {
        0
    } else {
        first_of(messages, mss, k - 1) + count_of(messages(k - 1), mss)
    }
}

/// The stream of segments holds the pieces of message `k` in their place.
pub open spec fn holds_message(
    stream: spec_fn(int) -> (u8, Seq<u8>),
    messages: spec_fn(int) -> Seq<u8>,
    mss: int,
    k: int,
) -> bool {
    &&& count_of(messages(k), mss) < 256
    &&& forall|j: int|
        0 <= j < count_of(messages(k), mss) ==> stream(first_of(messages, mss, k) + j) == piece(
            #[trigger] model::fragments(
                messages(k),
                mss,
                count_of(messages(k), mss) as nat,
            )[j],
        )
}

/// The stream of segments is that of these messages, one after the other.
pub open spec fn carries(
    stream: spec_fn(int) -> (u8, Seq<u8>),
    messages: spec_fn(int) -> Seq<u8>,
    mss: int,
) -> bool {
    &&& 0 < mss
    &&& forall|k: int| 0 <= k ==> #[trigger] holds_message(stream, messages, mss, k)
}

/// The segment belongs to the stream, at an index not too far from `base`.
pub open spec fn genuine(
    seg: model::SegmentState,
    stream: spec_fn(int) -> (u8, Seq<u8>),
    base: int,
) -> bool {
    exists|i: int|
        {
            &&& 0 <= i
            &&& base - 0x8000_0000 <= i < base + 0x8000_0000
            &&& seg.sn == i % 0x1_0000_0000
            &&& piece(seg) == #[trigger] stream(i)
        }
}

/// All data segments of the packet belong to the stream.
pub open spec fn all_genuine(
    bytes: Seq<u8>,
    stream: spec_fn(int) -> (u8, Seq<u8>),
    base: int,
) -> bool
    decreases bytes.len(),
{
    bytes.len() >= 28 + model::data_len_of(bytes) ==> {
        let seg = model::decode_segment(bytes);
        &&& seg.cmd == KCP_CMD_PUSH ==> genuine(seg, stream, base)
        &&& bytes.len() >= 28 ==> all_genuine(
            bytes.skip(28 + model::data_len_of(bytes)),
            stream,
            base,
        )
    }
}

/// The receiver has handed on the first `k` messages, and holds nothing but what the stream
/// holds behind them.
pub open spec fn received_up_to(
    s: model::KcpState,
    stream: spec_fn(int) -> (u8, Seq<u8>),
    messages: spec_fn(int) -> Seq<u8>,
    mss: int,
    k: int,
) -> bool {
    &&& 0 <= k
    &&& laws::delivers(s, stream, first_of(messages, mss, k) + s.rcv_queue.len())
}

pub proof fn lemma_first_of(messages: spec_fn(int) -> Seq<u8>, mss: int, k: int)
    requires
        0 < mss,
    ensures
        0 <= first_of(messages, mss, k),
    decreases k,
{
    if k > 0 {
        lemma_first_of(messages, mss, k - 1);
    }
}

/// A segment of the stream leaves the receive side in order.
proof fn lemma_apply_delivers(
    scan: model::InputScan,
    seg: model::SegmentState,
    stream: spec_fn(int) -> (u8, Seq<u8>),
    base: int,
)
    requires
        model::well_formed(scan.state),
        0 <= base,
        laws::delivers(scan.state, stream, base + scan.state.rcv_queue.len()),
        seg.cmd == KCP_CMD_PUSH ==> genuine(seg, stream, base),
    ensures
        ({
            let t = model::apply_segment(scan, seg).state;
            laws::delivers(t, stream, base + t.rcv_queue.len())
        }),
{
    let open = model::KcpState { rmt_wnd: seg.wnd, ..scan.state };
    let s = model::parse_una(open, seg.una);
    let taken = base + s.rcv_queue.len();
    assert(laws::delivers(s, stream, taken)) by {
        assert forall|i: int| 0 <= i < s.rcv_buf.len() implies piece(#[trigger] s.rcv_buf[i])
            == stream(taken + model::recv_offset(s, s.rcv_buf[i].sn)) by {
            assert(model::recv_offset(s, s.rcv_buf[i].sn) == model::recv_offset(
                scan.state,
                scan.state.rcv_buf[i].sn,
            ));
        }
    }
    let t = model::apply_segment(scan, seg).state;
    if seg.cmd == KCP_CMD_PUSH && model::below_window_end(s, seg.sn) {
        let acking = model::KcpState { acklist: s.acklist.push((seg.sn, seg.ts)), ..s };
        assert forall|sn: u32| #[trigger] model::recv_offset(acking, sn) == model::recv_offset(
            s,
            sn,
        ) by {}
        assert(laws::delivers(acking, stream, taken));
        assert(model::recv_side_holds(acking)) by {
            assert forall|sn: u32| #[trigger] model::recv_offset(acking, sn)
                == model::recv_offset(scan.state, sn) by {}
        }
        let i = choose|i: int|
            {
                &&& 0 <= i
                &&& base - 0x8000_0000 <= i < base + 0x8000_0000
                &&& seg.sn == i % 0x1_0000_0000
                &&& piece(seg) == #[trigger] stream(i)
            };
        if model::recv_offset(acking, seg.sn) < acking.rcv_wnd {
            assert(i == taken + model::recv_offset(acking, seg.sn));
        }
        let more = laws::law_ordered_delivery(acking, seg, stream, taken);
    } else {
        assert forall|sn: u32| #[trigger] model::recv_offset(t, sn) == model::recv_offset(
            s,
            sn,
        ) by {}
        assert(t.rcv_queue == s.rcv_queue && t.rcv_buf == s.rcv_buf);
    }
}

proof fn lemma_scan_delivers(
    scan: model::InputScan,
    bytes: Seq<u8>,
    stream: spec_fn(int) -> (u8, Seq<u8>),
    base: int,
)
    requires
        model::well_formed(scan.state),
        0 <= base,
        laws::delivers(scan.state, stream, base + scan.state.rcv_queue.len()),
        all_genuine(bytes, stream, base),
    ensures
        ({
            let t = model::scan_segments(scan, bytes).0.state;
            laws::delivers(t, stream, base + t.rcv_queue.len())
        }),
    decreases bytes.len(),
{
    if bytes.len() >= 28 && model::segment_error(scan.state.conv, bytes) is None {
        let seg = model::decode_segment(bytes);
        lemma_apply_delivers(scan, seg, stream, base);
        laws::lemma_apply_segment_well_formed(scan, seg);
        lemma_scan_delivers(
            model::apply_segment(scan, seg),
            bytes.skip(28 + model::data_len_of(bytes)),
            stream,
            base,
        );
    }
}

/// Whatever packets of the peer arrive, in whatever order and however often, the receiver
/// holds nothing but what the stream holds behind the messages that it has handed on.
pub proof fn law_input_keeps_the_stream(
    s: model::KcpState,
    current: u32,
    bytes: Seq<u8>,
    stream: spec_fn(int) -> (u8, Seq<u8>),
    messages: spec_fn(int) -> Seq<u8>,
    mss: int,
    k: int,
)
    requires
        model::well_formed(s),
        0 < mss,
        received_up_to(s, stream, messages, mss, k),
        all_genuine(bytes, stream, first_of(messages, mss, k)),
    ensures
        received_up_to(model::input_at(s, current, bytes).0, stream, messages, mss, k),
{
    let base = first_of(messages, mss, k);
    lemma_first_of(messages, mss, k);
    let now = model::KcpState { current, ..s };
    assert forall|sn: u32| #[trigger] model::recv_offset(now, sn) == model::recv_offset(s, sn) by {}
    laws::lemma_same_queues(s, now);
    if bytes.len() >= 28 {
        let start = model::InputScan { state: now, acked: false, max_ack: 0, latest_ts: 0 };
        lemma_scan_delivers(start, bytes, stream, base);
        let scan = model::scan_segments(start, bytes).0;
        let end = model::input_at(s, current, bytes).0;
        assert forall|sn: u32| #[trigger] model::recv_offset(end, sn) == model::recv_offset(
            scan.state,
            sn,
        ) by {}
        assert(end.rcv_queue == scan.state.rcv_queue && end.rcv_buf == scan.state.rcv_buf);
    }
}

/// A queue that starts with the pieces of a message.
proof fn lemma_queue_starts(
    queue: Seq<model::SegmentState>,
    message: Seq<u8>,
    mss: int,
    count: nat,
)
    requires
        0 < mss,
        1 <= count <= 256,
        message.len() <= count * mss,
        count <= queue.len(),
        forall|j: int|
            0 <= j < count ==> piece(queue[j]) == piece(
                #[trigger] model::fragments(message, mss, count)[j],
            ),
    ensures
        queue[0].frg == count - 1,
        model::message_bytes(queue) == message,
        model::after_message(queue) == queue.skip(count as int),
    decreases count,
{
    let all = model::fragments(message, mss, count);
    let size = model::min(mss, message.len() as int);
    let rest = message.skip(size);
    let tail = model::fragments(rest, mss, (count - 1) as nat);
    assert(all[0] == model::queued(message.take(size), (count - 1) as u8));
    assert(piece(queue[0]) == piece(all[0]));
    if count == 1 {
        assert(count * mss == mss) by (nonlinear_arith)
            requires
                count == 1,
        ;
        assert(message.take(size) =~= message);
        assert(queue.skip(1) =~= queue.drop_first());
    } else {
        assert(rest.len() <= (count - 1) * mss) by (nonlinear_arith)
            requires
                rest.len() == message.len() - size,
                message.len() <= count * mss,
                size == mss || size == message.len(),
                count >= 1,
                0 < mss,
        ;
        laws::lemma_fragments_fit(rest, mss, (count - 1) as nat);
        assert forall|j: int| 0 <= j < count - 1 implies piece(queue.drop_first()[j]) == piece(
            #[trigger] tail[j],
        ) by {
            assert(all[j + 1] == tail[j]);
        }
        lemma_queue_starts(queue.drop_first(), rest, mss, (count - 1) as nat);
        assert(message.take(size) + rest =~= message);
        assert(queue.drop_first().skip(count - 1) =~= queue.skip(count as int));
    }
}

/// The next message that can be received is the next one of the peer, and its segments leave
/// the queue.
pub proof fn lemma_message_leaves(
    s: model::KcpState,
    stream: spec_fn(int) -> (u8, Seq<u8>),
    messages: spec_fn(int) -> Seq<u8>,
    mss: int,
    k: int,
)
    requires
        model::well_formed(s),
        carries(stream, messages, mss),
        received_up_to(s, stream, messages, mss, k),
        model::peek(s) is Ok,
    ensures
        model::peek(s)->Ok_0 == messages(k),
        model::after_message(s.rcv_queue).len() == s.rcv_queue.len() - count_of(messages(k), mss),
{
    let base = first_of(messages, mss, k);
    let taken = base + s.rcv_queue.len();
    let message = messages(k);
    let count = count_of(message, mss);
    assert(holds_message(stream, messages, mss, k));
    if message.len() > 0 {
        laws::lemma_div_bound(message.len() - 1, mss);
        assert(message.len() <= ((message.len() - 1) / mss + 1) * mss) by (nonlinear_arith)
            requires
                message.len() > 0,
                0 < mss,
        ;
    }
    laws::lemma_fragments_fit(message, mss, count as nat);
    let all = model::fragments(message, mss, count as nat);
    assert(all[0].frg == count - 1) by {
        let size = model::min(mss, message.len() as int);
        assert(all[0] == model::queued(message.take(size), (count - 1) as u8));
    }
    assert(piece(s.rcv_queue[0]) == stream(base + 0));
    assert(stream(base + 0) == piece(all[0]));
    assert forall|j: int| 0 <= j < count implies piece(s.rcv_queue[j]) == piece(
        #[trigger] all[j],
    ) by {
        assert(piece(s.rcv_queue[j]) == stream(taken - s.rcv_queue.len() + j));
    }
    lemma_queue_starts(s.rcv_queue, message, mss, count as nat);
}

/// The next message that can be received is the next one of the peer, and behind it the
/// receiver holds what the stream holds.
pub proof fn law_next_message_is_received(
    s: model::KcpState,
    stream: spec_fn(int) -> (u8, Seq<u8>),
    messages: spec_fn(int) -> Seq<u8>,
    mss: int,
    k: int,
)
    requires
        model::well_formed(s),
        carries(stream, messages, mss),
        received_up_to(s, stream, messages, mss, k),
        model::peek(s) is Ok,
    ensures
        model::peek(s)->Ok_0 == messages(k),
        received_up_to(model::after_recv(s), stream, messages, mss, k + 1),
{
    let taken = first_of(messages, mss, k) + s.rcv_queue.len();
    lemma_message_leaves(s, stream, messages, mss, k);
    let more = laws::law_recv_continues(s, stream, taken);
    assert(taken + more == first_of(messages, mss, k + 1) + model::after_recv(s).rcv_queue.len());
}

// ---------------------------------------------------------------------------
// The sending end
// ---------------------------------------------------------------------------

/// The sender holds a part of the stream: the first segment without acknowledgement is the
/// one at `una`, those that are under way are where their numbers say, and those that wait
/// follow them.
pub open spec fn sends(
    s: model::KcpState,
    stream: spec_fn(int) -> (u8, Seq<u8>),
    una: int,
) -> bool {
    &&& 0 <= una
    &&& s.snd_una == una % 0x1_0000_0000
    &&& forall|i: int|
        0 <= i < s.snd_buf.len() ==> piece(#[trigger] s.snd_buf[i]) == stream(
            una + model::send_offset(s, s.snd_buf[i].sn),
        )
    &&& forall|i: int|
        0 <= i < s.snd_queue.len() ==> piece(#[trigger] s.snd_queue[i]) == stream(
            una + model::send_offset(s, s.snd_nxt) + i,
        )
}

/// The sender has taken the first `n` messages and nothing else.
pub open spec fn sent_up_to(
    s: model::KcpState,
    stream: spec_fn(int) -> (u8, Seq<u8>),
    messages: spec_fn(int) -> Seq<u8>,
    una: int,
    n: int,
) -> bool {
    &&& 0 <= n
    &&& sends(s, stream, una)
    &&& una + model::send_offset(s, s.snd_nxt) + s.snd_queue.len() == first_of(
        messages,
        s.mss as int,
        n,
    )
}

/// A new conversation has sent nothing.
pub proof fn law_new_sender_has_sent_nothing(
    conv: u64,
    params: KcpParams,
    stream: spec_fn(int) -> (u8, Seq<u8>),
    messages: spec_fn(int) -> Seq<u8>,
)
    ensures
        sent_up_to(model::init(conv, params), stream, messages, 0, 0),
        received_up_to(model::init(conv, params), stream, messages, params.mtu - 28, 0),
{
}

/// A message that is taken is the next one of the stream.
pub proof fn law_send_continues_the_stream(
    s: model::KcpState,
    stream: spec_fn(int) -> (u8, Seq<u8>),
    messages: spec_fn(int) -> Seq<u8>,
    una: int,
    n: int,
)
    requires
        model::well_formed(s),
        carries(stream, messages, s.mss as int),
        sent_up_to(s, stream, messages, una, n),
        model::send(s, messages(n)).1 is Ok,
    ensures
        sent_up_to(model::send(s, messages(n)).0, stream, messages, una, n + 1),
{
    let mss = s.mss as int;
    let message = messages(n);
    let count = count_of(message, mss);
    let all = model::fragments(message, mss, count as nat);
    let t = model::send(s, message).0;
    laws::lemma_fragments_fit(message, mss, count as nat);
    assert(holds_message(stream, messages, mss, n));
    assert forall|sn: u32| #[trigger] model::send_offset(t, sn) == model::send_offset(s, sn) by {}
    let next = una + model::send_offset(t, t.snd_nxt);
    assert forall|i: int| 0 <= i < t.snd_queue.len() implies piece(#[trigger] t.snd_queue[i])
        == stream(next + i) by {
        if i < s.snd_queue.len() {
            assert(t.snd_queue[i] == s.snd_queue[i]);
        } else {
            let j = i - s.snd_queue.len();
            assert(t.snd_queue[i] == all[j]);
            assert(stream(first_of(messages, mss, n) + j) == piece(all[j]));
        }
    }
}

/// The bytes are a run of whole segments.
pub open spec fn whole(bytes: Seq<u8>) -> bool
    decreases bytes.len(),
{
    bytes.len() == 0 || {
        &&& bytes.len() >= 28 + model::data_len_of(bytes)
        &&& bytes.len() >= 28 ==> whole(bytes.skip(28 + model::data_len_of(bytes)))
    }
}

proof fn lemma_genuine_append(
    a: Seq<u8>,
    b: Seq<u8>,
    stream: spec_fn(int) -> (u8, Seq<u8>),
    base: int,
)
    requires
        whole(a),
        whole(b),
        all_genuine(a, stream, base),
        all_genuine(b, stream, base),
    ensures
        whole(a + b),
        all_genuine(a + b, stream, base),
    decreases a.len(),
{
    if a.len() == 0 {
        assert(a + b =~= b);
    } else {
        let len = model::data_len_of(a);
        let both = a + b;
        assert(0 <= len && 28 + len <= a.len());
        assert(both.subrange(24, 28) =~= a.subrange(24, 28));
        assert(model::data_len_of(both) == len);
        assert(both.subrange(0, 8) =~= a.subrange(0, 8));
        assert(both.subrange(10, 12) =~= a.subrange(10, 12));
        assert(both.subrange(12, 16) =~= a.subrange(12, 16));
        assert(both.subrange(16, 20) =~= a.subrange(16, 20));
        assert(both.subrange(20, 24) =~= a.subrange(20, 24));
        assert(both.subrange(28, 28 + len) =~= a.subrange(28, 28 + len));
        assert(model::decode_segment(both) == model::decode_segment(a));
        assert(both.skip(28 + len) =~= a.skip(28 + len) + b);
        lemma_genuine_append(a.skip(28 + len), b, stream, base);
    }
}

/// An encoded segment is whole, and as genuine as the segment.
proof fn lemma_encoded_genuine(
    seg: model::SegmentState,
    stream: spec_fn(int) -> (u8, Seq<u8>),
    base: int,
)
    requires
        seg.data.len() <= u32::MAX,
        seg.cmd == KCP_CMD_PUSH ==> genuine(seg, stream, base),
    ensures
        whole(model::encode_segment(seg)),
        all_genuine(model::encode_segment(seg), stream, base),
{
    let bytes = model::encode_segment(seg);
    laws::lemma_encode_len(seg);
    laws::law_segment_roundtrip(seg, Seq::empty());
    assert(bytes + Seq::<u8>::empty() =~= bytes);
    let sent = laws::on_the_wire(seg);
    if seg.cmd == KCP_CMD_PUSH {
        let i = choose|i: int|
            {
                &&& 0 <= i
                &&& base - 0x8000_0000 <= i < base + 0x8000_0000
                &&& seg.sn == i % 0x1_0000_0000
                &&& piece(seg) == #[trigger] stream(i)
            };
        assert(piece(sent) == stream(i));
        assert(genuine(sent, stream, base));
    }
    assert(model::decode_segment(bytes) == sent);
    let rest = bytes.skip(28 + model::data_len_of(bytes));
    assert(rest.len() == 0);
    assert(model::data_len_of(rest) >= 0);
    assert(all_genuine(rest, stream, base));
    assert(whole(rest));
}

/// Everything in the output belongs to the stream.
pub open spec fn output_genuine(
    s: model::KcpState,
    stream: spec_fn(int) -> (u8, Seq<u8>),
    base: int,
) -> bool {
    &&& whole(s.buf)
    &&& all_genuine(s.buf, stream, base)
    &&& forall|i: int|
        0 <= i < s.output.len() ==> all_genuine(#[trigger] s.output[i], stream, base)
}

proof fn lemma_put_genuine(
    s: model::KcpState,
    seg: model::SegmentState,
    stream: spec_fn(int) -> (u8, Seq<u8>),
    base: int,
)
    requires
        output_genuine(s, stream, base),
        seg.data.len() <= u32::MAX,
        seg.cmd == KCP_CMD_PUSH ==> genuine(seg, stream, base),
    ensures
        output_genuine(model::put(s, model::encode_segment(seg)), stream, base),
{
    let bytes = model::encode_segment(seg);
    lemma_encoded_genuine(seg, stream, base);
    let none = Seq::<u8>::empty();
    assert(model::data_len_of(none) >= 0);
    assert(whole(none) && all_genuine(none, stream, base));
    lemma_genuine_append(s.buf, bytes, stream, base);
    lemma_genuine_append(none, bytes, stream, base);
}

proof fn lemma_put_acks_genuine(
    s: model::KcpState,
    acks: Seq<(u32, u32)>,
    stream: spec_fn(int) -> (u8, Seq<u8>),
    base: int,
)
    requires
        output_genuine(s, stream, base),
    ensures
        output_genuine(model::put_acks(s, acks), stream, base),
    decreases acks.len(),
{
    if acks.len() > 0 {
        let seg = model::control_segment(s, KCP_CMD_ACK, acks[0].0, acks[0].1);
        lemma_put_genuine(s, seg, stream, base);
        lemma_put_acks_genuine(
            model::put(s, model::encode_segment(seg)),
            acks.drop_first(),
            stream,
            base,
        );
    }
}

proof fn lemma_controls_genuine(
    s: model::KcpState,
    sn: u32,
    ts: u32,
    stream: spec_fn(int) -> (u8, Seq<u8>),
    base: int,
)
    requires
        output_genuine(s, stream, base),
    ensures
        output_genuine(
            model::flush_probes(model::probe_wnd_size(model::flush_ack(s)), sn, ts),
            stream,
            base,
        ),
{
    lemma_put_acks_genuine(s, s.acklist, stream, base);
    let probed = model::probe_wnd_size(model::flush_ack(s));
    let ask = model::control_segment(probed, KCP_CMD_WASK, sn, ts);
    let tell = model::control_segment(probed, KCP_CMD_WINS, sn, ts);
    assert(output_genuine(probed, stream, base));
    let asked = if probed.ask_send {
        model::put(probed, model::encode_segment(ask))
    } else {
        probed
    };
    lemma_put_genuine(probed, ask, stream, base);
    lemma_put_genuine(asked, tell, stream, base);
}

proof fn lemma_admit_sends(
    s: model::KcpState,
    window: u16,
    stream: spec_fn(int) -> (u8, Seq<u8>),
    una: int,
)
    requires
        model::holds(s),
        sends(s, stream, una),
    ensures
        ({
            let t = model::admit_queued(s, window);
            &&& sends(t, stream, una)
            &&& model::send_offset(t, t.snd_nxt) + t.snd_queue.len() == model::send_offset(
                s,
                s.snd_nxt,
            ) + s.snd_queue.len()
        }),
    decreases s.snd_queue.len(),
{
    if s.snd_queue.len() > 0 && model::timediff(
        s.snd_nxt,
        s.snd_una.wrapping_add(window as u32),
    ) < 0 {
        let next = model::admit_one(s);
        laws::lemma_admit_one_holds(s, window);
        assert forall|sn: u32| #[trigger] model::send_offset(next, sn) == model::send_offset(
            s,
            sn,
        ) by {}
        assert(model::send_offset(next, next.snd_nxt) == model::send_offset(s, s.snd_nxt) + 1);
        assert(piece(s.snd_queue[0]) == stream(una + model::send_offset(s, s.snd_nxt) + 0));
        assert forall|i: int| 0 <= i < next.snd_buf.len() implies piece(
            #[trigger] next.snd_buf[i],
        ) == stream(una + model::send_offset(next, next.snd_buf[i].sn)) by {
            if i < s.snd_buf.len() {
                assert(next.snd_buf[i] == s.snd_buf[i]);
            }
        }
        assert forall|i: int| 0 <= i < next.snd_queue.len() implies piece(
            #[trigger] next.snd_queue[i],
        ) == stream(una + model::send_offset(next, next.snd_nxt) + i) by {
            assert(next.snd_queue[i] == s.snd_queue[i + 1]);
        }
        lemma_admit_sends(next, window, stream, una);
    }
}

proof fn lemma_put_segments_genuine(
    s: model::KcpState,
    n: nat,
    stream: spec_fn(int) -> (u8, Seq<u8>),
    una: int,
    base: int,
)
    requires
        model::holds(s),
        sends(s, stream, una),
        base - 0x8000_0000 <= una < base + 0x7fff_0000,
        output_genuine(s, stream, base),
        n <= s.snd_buf.len(),
    ensures
        output_genuine(model::put_segments(s, n), stream, base),
    decreases n,
{
    if n > 0 {
        lemma_put_segments_genuine(s, (n - 1) as nat, stream, una, base);
        let seg = s.snd_buf[n - 1];
        let sent = model::transmit(s, seg);
        let i = una + model::send_offset(s, seg.sn);
        assert(piece(sent) == stream(i));
        assert(sent.sn == i % 0x1_0000_0000);
        assert(genuine(sent, stream, base));
        lemma_put_genuine(model::put_segments(s, (n - 1) as nat), sent, stream, base);
    }
}

/// A flush goes on with the stream, and sends nothing but segments of it.
pub proof fn law_flush_sends_the_stream(
    s: model::KcpState,
    stream: spec_fn(int) -> (u8, Seq<u8>),
    messages: spec_fn(int) -> Seq<u8>,
    una: int,
    n: int,
    base: int,
)
    requires
        model::well_formed(s),
        sent_up_to(s, stream, messages, una, n),
        base - 0x8000_0000 <= una < base + 0x7fff_0000,
        output_genuine(s, stream, base),
    ensures
        sent_up_to(model::flushed(s), stream, messages, una, n),
        output_genuine(model::flushed(s), stream, base),
{
    let (sn, ts) = model::last_ack(s);
    laws::lemma_controls_hold(s, sn, ts);
    lemma_controls_genuine(s, sn, ts, stream, base);
    let controls = model::flush_probes(model::probe_wnd_size(model::flush_ack(s)), sn, ts);
    assert forall|x: u32| #[trigger] model::send_offset(controls, x) == model::send_offset(
        s,
        x,
    ) by {}
    assert(sends(controls, stream, una));
    let window = model::send_window(controls);
    laws::lemma_admit_queued_holds(controls, window);
    lemma_admit_sends(controls, window, stream, una);
    let ready = model::before_segments(s);
    let count = ready.snd_buf.len();
    laws::lemma_put_segments_holds(ready, count);
    lemma_put_segments_genuine(ready, count, stream, una, base);
    let end = model::flushed(s);
    assert forall|x: u32| #[trigger] model::send_offset(end, x) == model::send_offset(
        ready,
        x,
    ) by {}
    assert forall|i: int| 0 <= i < end.snd_buf.len() implies piece(#[trigger] end.snd_buf[i])
        == stream(una + model::send_offset(end, end.snd_buf[i].sn)) by {
        assert(end.snd_buf[i] == model::transmit(ready, ready.snd_buf[i]));
    }
    let none = Seq::<u8>::empty();
    assert(model::data_len_of(none) >= 0);
    assert(whole(none) && all_genuine(none, stream, base));
}

/// Fewer segments are under way, and the first one without acknowledgement is found anew.
proof fn lemma_shrink_sends(
    s: model::KcpState,
    kept: Seq<model::SegmentState>,
    stream: spec_fn(int) -> (u8, Seq<u8>),
    una: int,
) -> (next: int)
    requires
        model::send_side_holds(s),
        sends(s, stream, una),
        forall|i: int| 0 <= i < kept.len() ==> s.snd_buf.contains(#[trigger] kept[i]),
        model::send_side_holds(model::shrink_buf(model::KcpState { snd_buf: kept, ..s })),
    ensures
        ({
            let t = model::shrink_buf(model::KcpState { snd_buf: kept, ..s });
            &&& una <= next <= una + 0xffff
            &&& sends(t, stream, next)
            &&& next + model::send_offset(t, t.snd_nxt) == una + model::send_offset(s, s.snd_nxt)
        }),
{
    let t = model::shrink_buf(model::KcpState { snd_buf: kept, ..s });
    let moved = model::send_offset(s, t.snd_una);
    if kept.len() > 0 {
        assert(s.snd_buf.contains(kept[0]));
        let j = choose|j: int| 0 <= j < s.snd_buf.len() && s.snd_buf[j] == kept[0];
        assert(model::send_offset(s, s.snd_buf[j].sn) < model::send_offset(s, s.snd_nxt));
    }
    assert(moved <= model::send_offset(s, s.snd_nxt));
    let next = una + moved;
    assert(model::send_offset(t, t.snd_nxt) == model::send_offset(s, s.snd_nxt) - moved);
    assert forall|i: int| 0 <= i < t.snd_buf.len() implies piece(#[trigger] t.snd_buf[i])
        == stream(next + model::send_offset(t, t.snd_buf[i].sn)) by {
        assert(s.snd_buf.contains(kept[i]));
        let j = choose|j: int| 0 <= j < s.snd_buf.len() && s.snd_buf[j] == kept[i];
        assert(model::send_offset(s, s.snd_buf[j].sn) < model::send_offset(s, s.snd_nxt));
        assert(model::send_offset(t, kept[i].sn) < model::send_offset(t, t.snd_nxt));
    }
    next
}

proof fn lemma_parse_una_sends(
    s: model::KcpState,
    acked: u32,
    stream: spec_fn(int) -> (u8, Seq<u8>),
    una: int,
) -> (next: int)
    requires
        model::send_side_holds(s),
        sends(s, stream, una),
    ensures
        ({
            let t = model::parse_una(s, acked);
            &&& una <= next
            &&& sends(t, stream, next)
            &&& next + model::send_offset(t, t.snd_nxt) == una + model::send_offset(s, s.snd_nxt)
        }),
{
    let k = laws::lemma_drop_acked_suffix(s.snd_buf, acked);
    let kept = model::drop_acked(s.snd_buf, acked);
    laws::lemma_parse_una_holds(s, acked);
    assert forall|i: int| 0 <= i < kept.len() implies s.snd_buf.contains(#[trigger] kept[i]) by {
        assert(kept[i] == s.snd_buf[i + k]);
    }
    lemma_shrink_sends(s, kept, stream, una)
}

proof fn lemma_parse_ack_sends(
    s: model::KcpState,
    sn: u32,
    stream: spec_fn(int) -> (u8, Seq<u8>),
    una: int,
) -> (next: int)
    requires
        model::send_side_holds(s),
        sends(s, stream, una),
    ensures
        ({
            let t = model::parse_ack(s, sn);
            &&& una <= next
            &&& sends(t, stream, next)
            &&& next + model::send_offset(t, t.snd_nxt) == una + model::send_offset(s, s.snd_nxt)
        }),
{
    laws::lemma_parse_ack_holds(s, sn);
    laws::lemma_shrink_unchanged(s);
    if model::in_flight(s, sn) {
        let k = laws::lemma_remove_sn_form(s.snd_buf, sn);
        let kept = model::remove_sn(s.snd_buf, sn);
        assert forall|i: int| 0 <= i < kept.len() implies s.snd_buf.contains(
            #[trigger] kept[i],
        ) by {
            if k < 0 || i < k {
                assert(kept[i] == s.snd_buf[i]);
            } else {
                assert(kept[i] == s.snd_buf[i + 1]);
            }
        }
        lemma_shrink_sends(s, kept, stream, una)
    } else {
        una
    }
}

proof fn lemma_apply_sends(
    scan: model::InputScan,
    seg: model::SegmentState,
    stream: spec_fn(int) -> (u8, Seq<u8>),
    una: int,
) -> (next: int)
    requires
        model::well_formed(scan.state),
        sends(scan.state, stream, una),
    ensures
        ({
            let t = model::apply_segment(scan, seg).state;
            &&& una <= next
            &&& sends(t, stream, next)
            &&& next + model::send_offset(t, t.snd_nxt) == una + model::send_offset(
                scan.state,
                scan.state.snd_nxt,
            )
            &&& t.snd_queue == scan.state.snd_queue
            &&& t.mss == scan.state.mss
        }),
{
    let open = model::KcpState { rmt_wnd: seg.wnd, ..scan.state };
    laws::lemma_same_queues(scan.state, open);
    assert forall|x: u32| #[trigger] model::send_offset(open, x) == model::send_offset(
        scan.state,
        x,
    ) by {}
    let first = lemma_parse_una_sends(open, seg.una, stream, una);
    laws::lemma_parse_una_holds(open, seg.una);
    let s = model::parse_una(open, seg.una);
    let t = model::apply_segment(scan, seg).state;
    if seg.cmd == KCP_CMD_ACK {
        let rtt = model::timediff(s.current, seg.ts);
        let sampled = if rtt >= 0 {
            model::update_ack(s, rtt as u32)
        } else {
            s
        };
        laws::lemma_same_queues(s, sampled);
        assert forall|x: u32| #[trigger] model::send_offset(sampled, x) == model::send_offset(
            s,
            x,
        ) by {}
        lemma_parse_ack_sends(sampled, seg.sn, stream, first)
    } else {
        if seg.cmd == KCP_CMD_PUSH {
            let acking = model::KcpState { acklist: s.acklist.push((seg.sn, seg.ts)), ..s };
            let fed = model::KcpState {
                rcv_buf: model::insert_ordered(acking.rcv_buf, seg),
                ..acking
            };
            lemma_move_buf_sends(fed);
        }
        assert(t.snd_una == s.snd_una && t.snd_nxt == s.snd_nxt);
        assert(t.snd_buf == s.snd_buf && t.snd_queue == s.snd_queue);
        assert forall|x: u32| #[trigger] model::send_offset(t, x) == model::send_offset(
            s,
            x,
        ) by {}
        first
    }
}

pub proof fn lemma_move_buf_sends(s: model::KcpState)
    ensures
        model::move_buf(s).snd_una == s.snd_una,
        model::move_buf(s).snd_nxt == s.snd_nxt,
        model::move_buf(s).snd_buf == s.snd_buf,
        model::move_buf(s).snd_queue == s.snd_queue,
        model::move_buf(s).mss == s.mss,
    decreases s.rcv_buf.len(),
{
    if s.rcv_buf.len() > 0 && s.rcv_buf[0].sn == s.rcv_nxt && s.rcv_queue.len() < s.rcv_wnd {
        lemma_move_buf_sends(
            model::KcpState {
                rcv_nxt: s.rcv_nxt.wrapping_add(1),
                rcv_buf: s.rcv_buf.drop_first(),
                rcv_queue: s.rcv_queue.push(s.rcv_buf[0]),
                ..s
            },
        );
    }
}

proof fn lemma_scan_sends(
    scan: model::InputScan,
    bytes: Seq<u8>,
    stream: spec_fn(int) -> (u8, Seq<u8>),
    una: int,
) -> (next: int)
    requires
        model::well_formed(scan.state),
        sends(scan.state, stream, una),
    ensures
        ({
            let t = model::scan_segments(scan, bytes).0.state;
            &&& una <= next
            &&& sends(t, stream, next)
            &&& next + model::send_offset(t, t.snd_nxt) == una + model::send_offset(
                scan.state,
                scan.state.snd_nxt,
            )
            &&& t.snd_queue == scan.state.snd_queue
            &&& t.mss == scan.state.mss
        }),
    decreases bytes.len(),
{
    if bytes.len() >= 28 && model::segment_error(scan.state.conv, bytes) is None {
        let seg = model::decode_segment(bytes);
        let first = lemma_apply_sends(scan, seg, stream, una);
        laws::lemma_apply_segment_well_formed(scan, seg);
        lemma_scan_sends(
            model::apply_segment(scan, seg),
            bytes.skip(28 + model::data_len_of(bytes)),
            stream,
            first,
        )
    } else {
        una
    }
}

/// What a sender holds of the stream depends on its queues alone.
pub proof fn lemma_sends_frame(
    s: model::KcpState,
    t: model::KcpState,
    stream: spec_fn(int) -> (u8, Seq<u8>),
    una: int,
)
    requires
        sends(s, stream, una),
        s.snd_una == t.snd_una,
        s.snd_nxt == t.snd_nxt,
        s.snd_queue == t.snd_queue,
        s.snd_buf.len() == t.snd_buf.len(),
        forall|i: int|
            0 <= i < s.snd_buf.len() ==> piece(#[trigger] t.snd_buf[i]) == piece(s.snd_buf[i])
                && t.snd_buf[i].sn == s.snd_buf[i].sn,
    ensures
        sends(t, stream, una),
        model::send_offset(t, t.snd_nxt) == model::send_offset(s, s.snd_nxt),
{
    assert forall|i: int| 0 <= i < t.snd_buf.len() implies piece(#[trigger] t.snd_buf[i])
        == stream(una + model::send_offset(t, t.snd_buf[i].sn)) by {
        assert(piece(s.snd_buf[i]) == stream(una + model::send_offset(s, s.snd_buf[i].sn)));
    }
}

/// The queues after a packet are those after its last segment.
proof fn lemma_input_queues(s: model::KcpState, bytes: Seq<u8>)
    requires
        bytes.len() >= 28,
    ensures
        ({
            let start = model::InputScan { state: s, acked: false, max_ack: 0, latest_ts: 0 };
            let a = model::scan_segments(start, bytes).0.state;
            let b = model::input(s, bytes).0;
            &&& a.snd_una == b.snd_una
            &&& a.snd_nxt == b.snd_nxt
            &&& a.snd_queue == b.snd_queue
            &&& a.mss == b.mss
            &&& a.snd_buf.len() == b.snd_buf.len()
            &&& forall|i: int|
                0 <= i < a.snd_buf.len() ==> piece(#[trigger] b.snd_buf[i]) == piece(a.snd_buf[i])
                    && b.snd_buf[i].sn == a.snd_buf[i].sn
        }),
{
    let start = model::InputScan { state: s, acked: false, max_ack: 0, latest_ts: 0 };
    let (scan, result) = model::scan_segments(start, bytes);
    laws::lemma_fastack_all(scan.state.snd_buf, scan.max_ack, scan.latest_ts);
}

/// Acknowledgements move the sender forward in the stream and change nothing else of it,
/// whatever the packet holds.
pub proof fn law_input_keeps_what_is_sent(
    s: model::KcpState,
    current: u32,
    bytes: Seq<u8>,
    stream: spec_fn(int) -> (u8, Seq<u8>),
    messages: spec_fn(int) -> Seq<u8>,
    una: int,
    n: int,
) -> (next: int)
    requires
        model::well_formed(s),
        sent_up_to(s, stream, messages, una, n),
    ensures
        una <= next,
        sent_up_to(model::input_at(s, current, bytes).0, stream, messages, next, n),
{
    let now = model::KcpState { current, ..s };
    laws::lemma_same_queues(s, now);
    lemma_sends_frame(s, now, stream, una);
    if bytes.len() < 28 {
        una
    } else {
        let start = model::InputScan { state: now, acked: false, max_ack: 0, latest_ts: 0 };
        let next = lemma_scan_sends(start, bytes, stream, una);
        lemma_input_queues(now, bytes);
        lemma_sends_frame(
            model::scan_segments(start, bytes).0.state,
            model::input(now, bytes).0,
            stream,
            next,
        );
        next
    }
}

/// Running the timers goes on with the stream, and sends nothing but segments of it.
pub proof fn law_update_sends_the_stream(
    s: model::KcpState,
    current: u32,
    stream: spec_fn(int) -> (u8, Seq<u8>),
    messages: spec_fn(int) -> Seq<u8>,
    una: int,
    n: int,
    base: int,
)
    requires
        model::well_formed(s),
        sent_up_to(s, stream, messages, una, n),
        base - 0x8000_0000 <= una < base + 0x7fff_0000,
        output_genuine(s, stream, base),
    ensures
        sent_up_to(model::update(s, current), stream, messages, una, n),
        output_genuine(model::update(s, current), stream, base),
{
    let (ticked, due) = model::tick(s, current);
    laws::lemma_same_queues(s, ticked);
    lemma_sends_frame(s, ticked, stream, una);
    if due {
        law_flush_sends_the_stream(ticked, stream, messages, una, n, base);
    }
}

} // verus!
