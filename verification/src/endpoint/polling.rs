//! What polling an endpoint promises: silent senders and closed sessions are forgotten in
//! their time.
use vstd::prelude::*;

use crate::endpoint::guarantees;
use crate::endpoint::guarantees::untouched;
use crate::endpoint::model;
use crate::endpoint::model::{EndpointState, Step};
use crate::endpoint::promises;
use crate::endpoint::replay;
use crate::endpoint::session;
use crate::endpoint::session::{SessionPhase, SessionState};
use crate::kcp;
use crate::machine;
use crate::machine::{CoreMetrics, EventState};
use crate::ordered;
use crate::sequence;
use crate::sequence::FilterState;
use crate::wire;

verus! {

proof fn lemma_without(m: FilterState, ids: Seq<u64>, id: u64)
    ensures
        sequence::without(m, ids).contains_key(id) <==> m.contains_key(id) && !ids.contains(id),
    decreases ids.len(),
{
    if ids.len() > 0 {
        let rest = ids.drop_first();
        lemma_without(m.remove(ids[0]), rest, id);
        if rest.contains(id) {
            let i = choose|i: int| 0 <= i < rest.len() && rest[i] == id;
            assert(ids[i + 1] == id);
        }
        if ids.contains(id) && id != ids[0] {
            let i = choose|i: int| 0 <= i < ids.len() && ids[i] == id;
            assert(rest[i - 1] == id);
        }
    }
}

/// Polling gives up the window of a sender only after more than 645 ticks of silence. It goes
/// on until one window is left, or until no sender has been silent for so long.
pub proof fn law_poll_gives_up_silent_senders(st: Step, elapsed_ms: u64, id: u64)
    requires
        st.core.filter.dom().finite(),
    ensures
        ({
            let before = st.core.filter;
            let after = model::polled(st, elapsed_ms).core.filter;
            let now = machine::tick_at(st.core.params.boot_time_ms, elapsed_ms);
            let silent = (now - before[id].newest_time) % 0x400_0000;
            &&& after.contains_key(id) ==> before.contains_key(id) && after[id] == before[id]
            &&& before.contains_key(id) && !after.contains_key(id) ==> 645 < silent < 0x200_0000
            &&& before.contains_key(id) && after.contains_key(id) && 645 < silent < 0x200_0000
                ==> after.len() <= 1
            &&& after.len() < before.len() ==> after.len() >= 1
        }),
{
    let before = st.core.filter;
    let now = machine::tick_at(st.core.params.boot_time_ms, elapsed_ms);
    let ids = sequence::expiring(before, now, 1);
    replay::lemma_poll_windows(st, elapsed_ms);
    sequence::law_expiring(before, now, 1);
    lemma_without(before, ids, id);
    let after = model::polled(st, elapsed_ms).core.filter;
    if before.contains_key(id) {
        sequence::law_expiry_of_a_window(before, id, now);
        if ids.contains(id) {
            let i = choose|i: int| 0 <= i < ids.len() && ids[i] == id;
            assert(sequence::expired(before, ids[i], now));
        }
        if after.contains_key(id) && sequence::expired(before, id, now) {
            assert(sequence::expired(after, id, now));
        }
    }
}

proof fn lemma_sessions_polled_spare(st: Step, elapsed_ms: u64, convs: Seq<u64>, conv: u64)
    requires
        !st.core.sessions.contains_key(conv),
        forall|i: int| 0 <= i < convs.len() ==> st.core.sessions.contains_key(#[trigger] convs[i]),
        forall|i: int, j: int| 0 <= i < j < convs.len() ==> convs[i] != convs[j],
    ensures
        untouched(st, model::sessions_polled(st, elapsed_ms, convs), conv),
    decreases convs.len(),
{
    reveal(model::sessions_polled);
    if convs.len() > 0 {
        let first = convs[0];
        let rest = convs.drop_first();
        let next = model::session_polled(st, elapsed_ms, first);
        guarantees::lemma_session_polled_scope(st, elapsed_ms, first);
        assert forall|i: int| 0 <= i < rest.len() implies next.core.sessions.contains_key(
            #[trigger] rest[i],
        ) by {
            assert(rest[i] == convs[i + 1]);
            assert(untouched(st, next, rest[i]));
        }
        assert(untouched(st, next, conv));
        lemma_sessions_polled_spare(next, elapsed_ms, rest, conv);
        guarantees::lemma_untouched_trans(
            st,
            next,
            model::sessions_polled(next, elapsed_ms, rest),
            conv,
        );
    } else {
        assert(st.actions.take(st.actions.len() as int) =~= st.actions);
    }
}

/// The rest of a poll leaves what is no session alone, and forgets what is over.
proof fn lemma_poll_forgets(st: Step, elapsed_ms: u64, conv: u64)
    requires
        st.core.sessions.dom().finite(),
    ensures
        ({
            let ids = ordered::ascending_pairs(st.core.outstanding.dom());
            let fed = model::samples_expired(st.core, elapsed_ms, ids);
            let reset = model::senders_expired(model::with_core(st, fed), elapsed_ms).core;
            let t = model::polled(st, elapsed_ms).core;
            !reset.sessions.contains_key(conv) ==> {
                &&& !t.sessions.contains_key(conv)
                &&& t.tombstones.contains_key(conv) <==> reset.tombstones.contains_key(conv)
                    && elapsed_ms < reset.tombstones[conv]
                &&& t.tombstones.contains_key(conv) ==> t.tombstones[conv]
                    == reset.tombstones[conv]
            }
        }),
{
    let ids = ordered::ascending_pairs(st.core.outstanding.dom());
    let fed = model::samples_expired(st.core, elapsed_ms, ids);
    guarantees::lemma_samples_expired_scope(st.core, elapsed_ms, ids);
    let reset = model::senders_expired(model::with_core(st, fed), elapsed_ms);
    let now = machine::tick_at(fed.params.boot_time_ms, elapsed_ms);
    let expired = sequence::expiring(fed.filter, now, 1);
    let forgetful = EndpointState { filter: sequence::without(fed.filter, expired), ..fed };
    assert(reset.core.sessions.dom().finite()) by {
        reveal(model::senders_expired);
        guarantees::lemma_senders_reset(
            model::with_core(st, forgetful),
            elapsed_ms,
            expired,
            conv,
        );
    }
    let forgotten = model::with_core(
        reset,
        EndpointState {
            tombstones: model::tombstones_kept(reset.core.tombstones, elapsed_ms),
            ..reset.core
        },
    );
    let convs = ordered::ascending(forgotten.core.sessions.dom());
    ordered::lemma_ascending_exists(forgotten.core.sessions.dom());
    assert forall|i: int| 0 <= i < convs.len() implies forgotten.core.sessions.contains_key(
        #[trigger] convs[i],
    ) by {
        assert(convs.contains(convs[i]));
        assert(forgotten.core.sessions.dom().contains(convs[i]));
    }
    if !reset.core.sessions.contains_key(conv) {
        lemma_sessions_polled_spare(forgotten, elapsed_ms, convs, conv);
        let polled = model::sessions_polled(forgotten, elapsed_ms, convs);
        reveal(model::kept_alive);
        let sample = model::feedback_due(polled.core, elapsed_ms);
        guarantees::lemma_message_sent_scope(
            polled,
            elapsed_ms,
            wire::EndpointMessageState::KeepAlive { reply_depth: model::depth_of_sample(sample) },
            sample,
        );
    }
}

/// A session that is closed is remembered up to its time. The first poll after that forgets
/// it, and no poll forgets it before.
pub proof fn law_poll_forgets_closed_sessions(st: Step, elapsed_ms: u64, conv: u64)
    requires
        st.core.sessions.dom().finite(),
        !st.core.sessions.contains_key(conv),
    ensures
        ({
            let t = model::polled(st, elapsed_ms).core;
            &&& !t.sessions.contains_key(conv)
            &&& t.tombstones.contains_key(conv) <==> st.core.tombstones.contains_key(conv)
                && elapsed_ms < st.core.tombstones[conv]
            &&& t.tombstones.contains_key(conv) ==> t.tombstones[conv] == st.core.tombstones[conv]
        }),
{
    let ids = ordered::ascending_pairs(st.core.outstanding.dom());
    let fed = model::samples_expired(st.core, elapsed_ms, ids);
    guarantees::lemma_samples_expired_scope(st.core, elapsed_ms, ids);
    let now = machine::tick_at(fed.params.boot_time_ms, elapsed_ms);
    let expired = sequence::expiring(fed.filter, now, 1);
    let forgetful = EndpointState { filter: sequence::without(fed.filter, expired), ..fed };
    assert(model::senders_expired(model::with_core(st, fed), elapsed_ms) == model::senders_reset(
        model::with_core(st, forgetful),
        elapsed_ms,
        expired,
    )) by {
        reveal(model::senders_expired);
    }
    guarantees::lemma_senders_reset(model::with_core(st, forgetful), elapsed_ms, expired, conv);
    lemma_poll_forgets(st, elapsed_ms, conv);
}

proof fn lemma_senders_reset_reach(st: Step, elapsed_ms: u64, ids: Seq<u64>, conv: u64)
    requires
        st.core.sessions.dom().finite(),
        st.core.sessions.contains_key(conv),
        st.core.sessions[conv].peer_seq is Some,
        ids.contains(st.core.sessions[conv].peer_seq->0),
    ensures
        ({
            let t = model::senders_reset(st, elapsed_ms, ids).core;
            &&& !t.sessions.contains_key(conv)
            &&& t.tombstones.contains_key(conv)
            &&& t.tombstones[conv] == model::later(elapsed_ms, 661_504)
        }),
    decreases ids.len(),
{
    reveal(model::senders_reset);
    let peer = st.core.sessions[conv].peer_seq->0;
    let convs = ordered::ascending(st.core.sessions.dom());
    let next = model::sessions_reset(st, elapsed_ms, ids[0], convs);
    guarantees::lemma_sessions_reset(st, elapsed_ms, ids[0], convs, conv);
    guarantees::law_reset_spares_other_senders(st, elapsed_ms, ids[0], conv);
    let rest = ids.drop_first();
    if ids[0] == peer {
        guarantees::lemma_senders_reset(next, elapsed_ms, rest, conv);
    } else {
        let i = choose|i: int| 0 <= i < ids.len() && ids[i] == peer;
        assert(rest[i - 1] == peer);
        lemma_senders_reset_reach(next, elapsed_ms, rest, conv);
    }
}

/// Where polling gives up the window of a sender, it gives up the sessions of that sender too,
/// and remembers them for 661504 milliseconds.
pub proof fn law_poll_resets_sessions_of_silent_senders(st: Step, elapsed_ms: u64, conv: u64)
    requires
        st.core.sessions.dom().finite(),
        st.core.filter.dom().finite(),
        st.core.sessions.contains_key(conv),
        st.core.sessions[conv].peer_seq is Some,
        st.core.filter.contains_key(st.core.sessions[conv].peer_seq->0),
        !model::polled(st, elapsed_ms).core.filter.contains_key(
            st.core.sessions[conv].peer_seq->0,
        ),
        elapsed_ms + 661_504 <= u64::MAX,
    ensures
        ({
            let t = model::polled(st, elapsed_ms).core;
            &&& !t.sessions.contains_key(conv)
            &&& t.tombstones.contains_key(conv)
            &&& t.tombstones[conv] == elapsed_ms + 661_504
        }),
{
    let peer = st.core.sessions[conv].peer_seq->0;
    let ids = ordered::ascending_pairs(st.core.outstanding.dom());
    let fed = model::samples_expired(st.core, elapsed_ms, ids);
    guarantees::lemma_samples_expired_scope(st.core, elapsed_ms, ids);
    replay::lemma_poll_windows(st, elapsed_ms);
    let now = machine::tick_at(fed.params.boot_time_ms, elapsed_ms);
    let expired = sequence::expiring(fed.filter, now, 1);
    lemma_without(st.core.filter, expired, peer);
    let forgetful = EndpointState { filter: sequence::without(fed.filter, expired), ..fed };
    assert(model::senders_expired(model::with_core(st, fed), elapsed_ms) == model::senders_reset(
        model::with_core(st, forgetful),
        elapsed_ms,
        expired,
    )) by {
        reveal(model::senders_expired);
    }
    lemma_senders_reset_reach(model::with_core(st, forgetful), elapsed_ms, expired, conv);
    lemma_poll_forgets(st, elapsed_ms, conv);
}

// ---------------------------------------------------------------------------
// Sessions
// ---------------------------------------------------------------------------

/// The timers of the sessions run one after the other.
pub proof fn law_sessions_are_polled_in_order(
    st: Step,
    elapsed_ms: u64,
    conv: u64,
    convs: Seq<u64>,
)
    ensures
        model::sessions_polled(st, elapsed_ms, Seq::empty()) == st,
        model::sessions_polled(st, elapsed_ms, seq![conv] + convs) == model::sessions_polled(
            model::session_polled(st, elapsed_ms, conv),
            elapsed_ms,
            convs,
        ),
{
    reveal_with_fuel(model::sessions_polled, 2);
    assert((seq![conv] + convs).drop_first() =~= convs);
    assert((seq![conv] + convs)[0] == conv);
}

/// Polling an open session runs its timers and sends what they want sent. Nothing else of the
/// session changes.
pub proof fn law_polled_session_runs_its_timers(st: Step, elapsed_ms: u64, conv: u64)
    requires
        st.core.sessions.contains_key(conv),
        st.core.sessions[conv].phase == SessionPhase::Open,
    ensures
        ({
            let session = st.core.sessions[conv];
            let t = model::session_polled(st, elapsed_ms, conv);
            let (k, packets) = session::polled(session.kcp, elapsed_ms);
            let after = SessionState { kcp: k, ..session };
            &&& t.core.sessions == st.core.sessions.insert(conv, after)
            &&& t == model::packets_sent(
                Step {
                    core: EndpointState {
                        sessions: st.core.sessions.insert(conv, after),
                        ..st.core
                    },
                    actions: st.actions,
                },
                elapsed_ms,
                packets,
            )
        }),
{
    reveal(model::session_polled);
    reveal(model::close_announced);
    reveal(model::closed_finished);
    let session = st.core.sessions[conv];
    let (k, packets) = session::polled(session.kcp, elapsed_ms);
    let kept = model::with_core(
        st,
        model::put_session(st.core, conv, SessionState { kcp: k, ..session }),
    );
    promises::lemma_packets_keep(kept, elapsed_ms, packets);
}

/// A close that had to wait is announced by the first poll that finds room for it, and the
/// session stays until that is acknowledged.
pub proof fn law_poll_announces_the_close(st: Step, elapsed_ms: u64, conv: u64)
    requires
        model::endpoint_ok(st.core),
        st.core.sessions.contains_key(conv),
        st.core.sessions[conv].phase == SessionPhase::ClosingLocal,
        st.core.sessions[conv].pending_close is Some,
        !st.core.sessions[conv].close_queued,
        st.core.sessions[conv].close_deadline_at is Some,
        elapsed_ms < st.core.sessions[conv].close_deadline_at->0,
        st.core.sessions[conv].kcp.snd_queue.len() + st.core.sessions[conv].kcp.snd_buf.len()
            < st.core.params.kcp.send_window,
    ensures
        ({
            let t = model::session_polled(st, elapsed_ms, conv).core;
            &&& t.sessions.contains_key(conv)
            &&& t.sessions[conv].close_queued
            &&& t.sessions[conv].phase == SessionPhase::ClosingLocal
            &&& t.sessions[conv].pending_close == st.core.sessions[conv].pending_close
            &&& t.sessions[conv].close_deadline_at == st.core.sessions[conv].close_deadline_at
        }),
{
    reveal(model::close_announced);
    let s = st.core;
    let old = s.sessions[conv];
    let k = old.kcp;
    assert(session::session_ok(s.params.kcp, conv, old));
    let m = wire::SessionMessageState::Close { reason: old.pending_close->0 };
    let queued = model::with_core(
        st,
        model::put_session(s, conv, SessionState { close_queued: true, ..old }),
    );
    assert(wire::encode_session(m).len() == 2);
    promises::lemma_short_message(s.params.kcp, 2, k.mss as int);
    promises::lemma_message_pends(k, elapsed_ms, m);
    promises::lemma_session_sent_keeps(queued, elapsed_ms, conv, m);
    let announced = model::close_announced(st, elapsed_ms, conv);
    let sent = session::message_sent(k, elapsed_ms, m).0;
    assert(announced.core.sessions[conv] == SessionState { close_queued: true, kcp: sent, ..old });
    lemma_sent_kcp(k, elapsed_ms, m);
    lemma_polled_pends(sent, elapsed_ms);
    reveal(model::session_polled);
    reveal(model::closed_finished);
    let session = announced.core.sessions[conv];
    let (next, packets) = session::polled(session.kcp, elapsed_ms);
    let kept = model::with_core(
        announced,
        model::put_session(announced.core, conv, SessionState { kcp: next, ..session }),
    );
    promises::lemma_packets_keep(kept, elapsed_ms, packets);
}

proof fn lemma_sent_kcp(k: kcp::model::KcpState, elapsed_ms: u64, m: wire::SessionMessageState)
    requires
        kcp::model::well_formed(k),
    ensures
        kcp::model::well_formed(session::message_sent(k, elapsed_ms, m).0),
{
    reveal(session::message_sent);
    reveal(session::flushed_now);
    let data = wire::encode_session(m);
    kcp::laws::lemma_send_well_formed(k, data);
    let queued = kcp::model::send(k, data).0;
    let now = session::kcp_time(elapsed_ms);
    kcp::laws::lemma_update_frame(queued, now);
    kcp::laws::lemma_flushed_well_formed(kcp::model::update(queued, now));
    let full = kcp::model::flushed(kcp::model::update(queued, now));
    let empty = kcp::model::KcpState { output: Seq::empty(), ..full };
    kcp::laws::lemma_same_queues(full, empty);
    assert(kcp::model::output_holds(empty));
    assert(kcp::model::limits_hold(empty));
}

proof fn lemma_polled_pends(k: kcp::model::KcpState, elapsed_ms: u64)
    requires
        kcp::model::well_formed(k),
    ensures
        kcp::laws::pending(session::polled(k, elapsed_ms).0) == kcp::laws::pending(k),
{
    reveal(session::polled);
    kcp::laws::lemma_update_frame(k, session::kcp_time(elapsed_ms));
}

// ---------------------------------------------------------------------------
// Events
// ---------------------------------------------------------------------------

/// Every packet that arrives is counted, whatever becomes of it.
pub proof fn law_received_packets_are_counted(
    st: Step,
    elapsed_ms: u64,
    channel_id: u16,
    bytes: Seq<u8>,
) -> (received: u64)
    ensures
        st.core.metrics.packets_received < u64::MAX ==> received
            == st.core.metrics.packets_received + 1,
        st.core.metrics.packets_received == u64::MAX ==> received == u64::MAX,
        model::event_handled(
            st,
            elapsed_ms,
            EventState::TransportPacketReceived { channel_id, bytes },
        ).0 == model::packet_received(
            Step {
                core: EndpointState {
                    metrics: CoreMetrics { packets_received: received, ..st.core.metrics },
                    ..st.core
                },
                actions: st.actions,
            },
            elapsed_ms,
            bytes,
        ),
{
    machine::bumped(st.core.metrics.packets_received)
}

/// A write of `len` bytes needs as many segments as hold them and one byte more. It is blocked
/// exactly if these and those that wait are more than the send window.
pub proof fn law_when_a_write_is_blocked(
    s: EndpointState,
    conv: u64,
    len: nat,
    segments: int,
)
    requires
        s.params.kcp.mtu > 28,
        (segments - 1) * (s.params.kcp.mtu - 28) < 1 + len <= segments * (s.params.kcp.mtu - 28),
    ensures
        model::write_blocked(s, conv, len) <==> s.sessions[conv].kcp.snd_queue.len()
            + s.sessions[conv].kcp.snd_buf.len() + segments > s.params.kcp.send_window,
{
    let mss = s.params.kcp.mtu - 28;
    let q = len as int / mss;
    vstd::arithmetic::div_mod::lemma_fundamental_div_mod(len as int, mss);
    vstd::arithmetic::div_mod::lemma_mod_bound(len as int, mss);
    assert(q + 1 == segments && segments >= 1) by (nonlinear_arith)
        requires
            mss > 0,
            len >= 0,
            (segments - 1) * mss < 1 + len <= segments * mss,
            len == mss * q + len as int % mss,
            0 <= len as int % mss < mss,
    ;
}

/// A session id is used once: the next session gets the next number, and 0 after the last one.
pub proof fn law_session_numbers_follow(st: Step, elapsed_ms: u64)
    ensures
        ({
            let next = st.core.next_conv_id;
            let (t, result) = model::event_handled(st, elapsed_ms, EventState::SessionOpen);
            &&& result == machine::CoreEventResult::SessionCreated { conv_id: next }
            &&& next < u64::MAX ==> t.core.next_conv_id == next + 1
            &&& next == u64::MAX ==> t.core.next_conv_id == 0
        }),
{
    guarantees::law_session_ids_count_up(st, elapsed_ms);
}

} // verus!
