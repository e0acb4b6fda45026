//! What the tunnel promises about packets, sessions and connections, over whole rounds.
use vstd::prelude::*;

use crate::hop::packet as hop_packet;
use crate::tunnel::connections::{assigned, closed, dropped, matched, session_of, ConnectionState};
use crate::tunnel::counter;
use crate::tunnel::counter::CounterState;
use crate::tunnel::inbox::{received, step_of, InboxState, InboxStep};
use crate::tunnel::packet::{
    decrypted, plain_bytes, type_byte, RayPacket, RayPacketError, RayPacketType,
};
use crate::tunnel::session::{
    delivered, first_delivery, input_step, update_step, update_time, Delivery, DeliveryEvent,
    InputStep, UpdateStep,
};
use crate::tunnel::settings;
use crate::tunnel::socket::{
    InputOutcome, InputResult, KcpSocket, KcpStatus, RecvOutcome, RecvStep, SendStep,
};
use crate::tunnel::updater::{advanced, Phase, Turn, Updater};

verus! {

// ---------------------------------------------------------------------------
// Sessions
// ---------------------------------------------------------------------------

/// A packet is dropped where it is shorter than a header of 24 bytes, and taken otherwise. A
/// session that has its conversation takes on the one that the packet names in its first four
/// bytes, least significant first, where that is another one.
pub proof fn law_packet_names_the_conversation(packet: Seq<u8>, conv: u32, waiting_conv: bool)
    requires
        packet.len() >= 4,
    ensures
        ({
            let named = packet[0] + 256 * packet[1] + 65536 * packet[2] + 16777216 * packet[3];
            let step = input_step(packet, conv, waiting_conv);
            &&& packet.len() < 24 <==> step is TooShort
            &&& packet.len() >= 24 && (waiting_conv || named == conv) ==> step == (
            InputStep::Input { set_conv: None })
            &&& packet.len() >= 24 && !waiting_conv && named != conv ==> (step
                matches InputStep::Input { set_conv: Some(set) } && set == named)
        }),
{
    let front = packet.subrange(0, 4);
    reveal_with_fuel(crate::octets::le_value, 5);
    assert(front.drop_first().drop_first().drop_first().drop_first().len() == 0);
}

/// One turn of the updater. It ends where the session is closed and nothing is left to send,
/// and, at a server, after more than twice the limit of silence. Otherwise the control block
/// is updated, with a flush before where one of the windows is full and the conversation is
/// known, and the session of a server that has been silent for more than the limit is closed.
pub proof fn law_turn_of_the_updater(
    is_closed: bool,
    kcp: KcpStatus,
    is_client: bool,
    elapsed_ns: u128,
    expire_ns: Option<u128>,
)
    ensures
        ({
            let step = update_step(is_closed, kcp, is_client, elapsed_ns, expire_ns);
            let limited = !is_client && expire_ns is Some;
            &&& step is Stop <==> (is_closed && kcp.wait_snd == 0) || (limited && elapsed_ns > 2
                * expire_ns->0)
            &&& step matches UpdateStep::Update { close, flush } ==> {
                &&& close <==> limited && elapsed_ns > expire_ns->0 && !is_closed
                &&& flush <==> !kcp.waiting_conv && (kcp.wait_snd >= kcp.snd_wnd || kcp.wait_snd
                    >= kcp.rmt_wnd)
            }
        }),
{
}

/// The next turn comes when the control block asks for it, or after 10 ms.
pub proof fn law_next_turn(now_ms: u64, asked_ms: Option<u32>)
    ensures
        ({
            let wait = if asked_ms is Some {
                asked_ms->0 as int
            } else {
                10
            };
            update_time(now_ms, asked_ms) == if now_ms + wait <= 0xffff_ffff_ffff_ffff {
                now_ms + wait
            } else {
                0xffff_ffff_ffff_ffff
            }
        }),
{
}

/// The way of a message: it is asked for, read, and offered to the connection. Where the
/// connection has room the next one is asked for; where it has none the message waits, and is
/// the first to be sent the next time. A message without bytes is passed over, and where there
/// is none the delivery is done.
pub proof fn law_way_of_a_message(size: usize, len: usize)
    requires
        size > 0,
        len > 0,
    ensures
        first_delivery(0) == Delivery::Peeking,
        delivered(Delivery::Peeking, DeliveryEvent::Peeked { size: Some(size) }) == (
        Delivery::Reading { size }),
        delivered(Delivery::Peeking, DeliveryEvent::Peeked { size: Some(0) }) == Delivery::Peeking,
        delivered(Delivery::Peeking, DeliveryEvent::Peeked { size: None }) == (Delivery::Done {
            size: 0,
        }),
        delivered(Delivery::Reading { size }, DeliveryEvent::Read { size: Some(len) }) == (
        Delivery::Offering { size: len }),
        delivered(Delivery::Reading { size }, DeliveryEvent::Read { size: None })
            == Delivery::Peeking,
        delivered(Delivery::Offering { size: len }, DeliveryEvent::Accepted) == Delivery::Peeking,
        delivered(Delivery::Offering { size: len }, DeliveryEvent::Full) == (Delivery::Done {
            size: len,
        }),
        delivered(Delivery::Offering { size: len }, DeliveryEvent::Closed) == Delivery::Broken,
        first_delivery(len) == (Delivery::Sending { size: len }),
        delivered(Delivery::Sending { size: len }, DeliveryEvent::Sent) == Delivery::Peeking,
        delivered(Delivery::Sending { size: len }, DeliveryEvent::SendFailed) == Delivery::Broken,
{
}

/// A whole round of the updater of a session that goes on: it looks at the session, flushes
/// where it has to, updates, delivers what waits, and rests until the time that the control
/// block asked for; then the next round begins. A message that found no room is the first to
/// go in the next round.
pub proof fn law_round_of_the_updater(
    u: Updater,
    kcp: KcpStatus,
    elapsed_ns: u128,
    now_ms: u64,
    asked_ms: Option<u32>,
    size: usize,
)
    requires
        u.phase == Phase::Check,
        u.held == 0,
        u.is_client || u.expire_ns is None || elapsed_ns <= u.expire_ns->0,
        size > 0,
    ensures
        ({
            let looked = advanced(
                u,
                Turn::Checked { closed: false, is_closed: false, kcp, elapsed_ns },
            );
            let full = !kcp.waiting_conv && (kcp.wait_snd >= kcp.snd_wnd || kcp.wait_snd
                >= kcp.rmt_wnd);
            let flushed = if full {
                advanced(looked.0, Turn::Flushed).0
            } else {
                looked.0
            };
            let updated = advanced(flushed, Turn::Updated { now_ms, asked_ms }).0;
            let peeked = advanced(
                updated,
                Turn::Delivered { event: DeliveryEvent::Peeked { size: Some(size) } },
            ).0;
            let read = advanced(
                peeked,
                Turn::Delivered { event: DeliveryEvent::Read { size: Some(size) } },
            ).0;
            let held = advanced(read, Turn::Delivered { event: DeliveryEvent::Full }).0;
            let again = advanced(held, Turn::Woken).0;
            let until_ms = update_time(now_ms, asked_ms);
            &&& !looked.1
            &&& looked.0.phase == if full {
                Phase::Flush
            } else {
                Phase::Update
            }
            &&& flushed.phase == Phase::Update
            &&& updated.phase == (Phase::Deliver { delivery: Delivery::Peeking, until_ms })
            &&& peeked.phase == (Phase::Deliver { delivery: Delivery::Reading { size }, until_ms })
            &&& read.phase == (Phase::Deliver { delivery: Delivery::Offering { size }, until_ms })
            &&& held.phase == (Phase::Wait { until_ms })
            &&& held.held == size
            &&& again == (Updater { phase: Phase::Check, held: size, ..u })
            &&& advanced(
                Updater { phase: Phase::Update, ..again },
                Turn::Updated { now_ms, asked_ms },
            ).0.phase == (Phase::Deliver { delivery: Delivery::Sending { size }, until_ms })
        }),
{
}

// ---------------------------------------------------------------------------
// Datagrams
// ---------------------------------------------------------------------------

/// The types have the bytes 0, 1 and 2, and the byte of its type stands before the data.
pub proof fn law_type_bytes(data: Seq<u8>)
    ensures
        type_byte(RayPacketType::DataPacket) == 0,
        type_byte(RayPacketType::StatRequest) == 1,
        type_byte(RayPacketType::StatResponse) == 2,
        plain_bytes(RayPacketType::DataPacket, data) == seq![0u8] + data,
        plain_bytes(RayPacketType::StatRequest, data) == seq![1u8] + data,
        plain_bytes(RayPacketType::StatResponse, data) == seq![2u8] + data,
{
}

/// A datagram is refused for its length first, from 33 to 4096 bytes, then for its nonce, and
/// then for its tag.
pub proof fn law_datagram_is_checked_in_order(
    key: Seq<u8>,
    data: Seq<u8>,
    time_ms: u64,
    fresh: bool,
)
    ensures
        ({
            let result = decrypted(key, data, time_ms, fresh);
            let opened = hop_packet::opened(time_ms, key, data);
            if !(33 <= data.len() <= 4096) {
                result == Err::<Seq<u8>, RayPacketError>(RayPacketError::BufLengthError)
            } else if !fresh {
                result == Err::<Seq<u8>, RayPacketError>(RayPacketError::NonceReuseError)
            } else if opened is None {
                result == Err::<Seq<u8>, RayPacketError>(RayPacketError::DecryptError)
            } else {
                result == Ok::<Seq<u8>, RayPacketError>(opened->0)
            }
        }),
{
}

/// What a node does with a datagram: data is handed on and counted, a request is counted and
/// answered, a response decides by its index and is not counted, a repeated one and one that
/// does not open are told apart and not counted.
pub proof fn law_datagram_goes_its_way(
    s: InboxState,
    source: u128,
    opened: Result<RayPacket, RayPacketError>,
    now: u64,
)
    requires
        s.counters.contains_key(source) ==> s.counters[source].buckets.len() == 64,
    ensures
        ({
            let step = step_of(s, source, opened, now);
            let next = received(s, source, opened, now);
            let old = if s.counters.contains_key(source) {
                counter::total(s.counters[source], now, 64)
            } else {
                0
            };
            &&& next.last_index == s.last_index
            &&& match opened {
                Ok(packet) => match packet.ptype {
                    RayPacketType::DataPacket => {
                        &&& step == InboxStep::Process
                        &&& old < u32::MAX ==> counter::total(next.counters[source], now, 64)
                            == old + 1
                    },
                    RayPacketType::StatRequest => {
                        &&& old < u32::MAX ==> step == (InboxStep::Respond {
                            count: Some((old + 1) as u32),
                        })
                        &&& old < u32::MAX ==> counter::total(next.counters[source], now, 64)
                            == old + 1
                    },
                    RayPacketType::StatResponse => step == InboxStep::Answered && next == s,
                },
                Err(RayPacketError::NonceReuseError) => step == InboxStep::Duplicate && next == s,
                Err(_) => step == InboxStep::Invalid && next == s,
            }
        }),
{
    let before = crate::tunnel::inbox::counter_of(s, source, now);
    if !s.counters.contains_key(source) {
        lemma_new_counter(before, now, 64);
    }
    if counter::total(before, now, 64) < u32::MAX {
        counter::law_events_are_counted(before, now, 1);
    }
}

proof fn lemma_new_counter(s: CounterState, now: u64, n: nat)
    requires
        s.buckets == Seq::new(64, |i: int| 0u32),
        n <= 64,
    ensures
        counter::total(s, now, n) == 0,
    decreases n,
{
    if n > 0 {
        lemma_new_counter(s, now, (n - 1) as nat);
        let k = counter::bucket_index(now, n - 1);
        assert(0 <= k < 64);
    }
}

/// Events are counted in 64 buckets of 2^26 nanoseconds each.
pub proof fn law_buckets(now: u64, age: int)
    requires
        0 <= age < 64,
        now >= 64 * 0x400_0000,
    ensures
        counter::bucket_of(now) == now as int / 0x400_0000,
        counter::bucket_index(now, age) == (now as int / 0x400_0000 - age) % 64,
{
    let b = now as int / 0x400_0000;
    assert((b % 64 + 64 - age) % 64 == (b - age) % 64) by {
        vstd::arithmetic::div_mod::lemma_fundamental_div_mod(b, 64);
        vstd::arithmetic::div_mod::lemma_mod_multiples_vanish(b / 64 - 1, b % 64 + 64 - age, 64);
        assert(64 * (b / 64 - 1) + (b % 64 + 64 - age) == b - age);
    }
}

// ---------------------------------------------------------------------------
// Connections
// ---------------------------------------------------------------------------

/// A session that is assigned to a connection is found from both sides, and no other
/// connection is touched.
pub proof fn law_session_is_found(s: ConnectionState, addr: u64, conv: u32, other: u64, id: u32)
    requires
        matched(s),
        !s.convs.contains_key(addr),
        !s.kcps.contains_key(conv),
    ensures
        ({
            let t = assigned(s, addr, conv);
            &&& matched(t)
            &&& session_of(t, addr) == Some(conv)
            &&& t.kcps.contains_key(conv) && t.kcps[conv] == addr
            &&& other != addr ==> session_of(t, other) == session_of(s, other)
            &&& id != conv ==> t.kcps.contains_key(id) == s.kcps.contains_key(id)
            &&& id != conv && s.kcps.contains_key(id) ==> t.kcps[id] == s.kcps[id]
            &&& t.cons == s.cons
        }),
{
    let t = assigned(s, addr, conv);
    assert forall|a: u64| #[trigger] t.convs.contains_key(a) implies t.kcps.contains_key(
        t.convs[a],
    ) && t.kcps[t.convs[a]] == a by {
        if a != addr {
            assert(s.convs.contains_key(a));
        }
    }
    assert forall|c: u32| #[trigger] t.kcps.contains_key(c) implies t.convs.contains_key(t.kcps[c])
        && t.convs[t.kcps[c]] == c by {
        if c != conv {
            assert(s.kcps.contains_key(c));
        }
    }
}

/// Closing a session forgets it from both sides; dropping a connection forgets the connection
/// too. Nothing else is touched.
pub proof fn law_session_is_forgotten(s: ConnectionState, addr: u64, other: u64)
    requires
        matched(s),
        other != addr,
    ensures
        ({
            let t = closed(s, addr);
            let u = dropped(s, addr);
            &&& session_of(t, addr) is None
            &&& session_of(s, addr) is Some ==> !t.kcps.contains_key(session_of(s, addr)->0)
            &&& t.cons == s.cons
            &&& session_of(t, other) == session_of(s, other)
            &&& session_of(s, other) is Some ==> t.kcps.contains_key(session_of(s, other)->0)
                && t.kcps[session_of(s, other)->0] == other
            &&& !u.cons.contains(addr)
            &&& u.cons.contains(other) == s.cons.contains(other)
            &&& u.convs == t.convs && u.kcps == t.kcps
        }),
{
}

// ---------------------------------------------------------------------------
// Sockets
// ---------------------------------------------------------------------------

/// A closed socket sends nothing. The first message goes out whatever the state of the
/// session, cut to one segment while the conversation is not known. Later ones wait until it
/// is known and there is room in the window of this side and in that of the other.
pub proof fn law_when_a_socket_sends(socket: KcpSocket, kcp: KcpStatus, len: usize)
    ensures
        ({
            let step = socket.send_step(kcp, len);
            let room = kcp.wait_snd < kcp.snd_wnd && kcp.wait_snd < kcp.rmt_wnd;
            &&& socket.closed <==> step is BrokenPipe
            &&& !socket.closed && socket.sent_first ==> {
                &&& room && !kcp.waiting_conv ==> step == (SendStep::Send { len })
                &&& !room || kcp.waiting_conv ==> step is Wait
            }
            &&& !socket.closed && !socket.sent_first ==> {
                &&& !kcp.waiting_conv || len <= kcp.mss ==> step == (SendStep::Send { len })
                &&& kcp.waiting_conv && len > kcp.mss ==> step == (SendStep::Send {
                    len: kcp.mss,
                })
            }
        }),
{
}

/// A closed socket reads the end. Any other reads what has arrived, waits for it, or fails;
/// an empty message is waited over unless empty messages are wanted.
pub proof fn law_when_a_socket_reads(socket: KcpSocket, outcome: RecvOutcome)
    ensures
        ({
            let step = socket.recv_step(outcome);
            &&& socket.closed ==> step == (RecvStep::Bytes { len: 0 })
            &&& !socket.closed ==> match outcome {
                RecvOutcome::NotReady => step is Wait,
                RecvOutcome::Failed => step is Fail,
                RecvOutcome::Bytes { len } => if len > 0 || socket.allow_recv_empty_packet {
                    step == (RecvStep::Bytes { len })
                } else {
                    step is Wait
                },
            }
        }),
{
}

/// What a socket takes in is flushed if that is configured. Input for another conversation is
/// ignored, and other failures are told.
pub proof fn law_when_a_socket_takes_input(socket: KcpSocket)
    ensures
        socket.input_result(InputOutcome::Taken) == (InputResult::Taken {
            flush: socket.flush_ack_input,
        }),
        socket.input_result(InputOutcome::Inconsistent) == InputResult::Ignored,
        socket.input_result(InputOutcome::Failed) == InputResult::Failed,
{
}

/// A sender that waits is woken exactly when a send would go out, and a receiver that waits
/// exactly when a read would give it something.
pub proof fn law_when_a_socket_wakes(socket: KcpSocket, kcp: KcpStatus, len: usize)
    requires
        !socket.closed,
        socket.sent_first,
    ensures
        socket.wakes(kcp).sender <==> socket.pending_sender && socket.send_step(kcp, len) is Send,
        kcp.peek matches Some(size) ==> (socket.wakes(kcp).receiver <==> socket.pending_receiver
            && socket.recv_step(RecvOutcome::Bytes { len: size }) is Bytes),
        kcp.peek is None ==> !socket.wakes(kcp).receiver,
{
}

/// A text of the command line goes before one of the file, and that before the default.
pub proof fn law_given_text_goes_first(given: String, file: Option<String>, default: Seq<char>)
    ensures
        settings::given_or(Some(given), file, default) == given@,
        settings::given_or(None, Some(given), default) == given@,
        settings::given_or(None, None, default) == default,
{
}

} // verus!
