//! What the shell around a core promises: connections leave no trace, batches are worked off
//! in their order, and sessions hear what is meant for them.
use vstd::prelude::*;

use crate::endpoint::model;
use crate::hop::machine::ConvId;
use crate::machine;
use crate::machine::{ActionState, ChannelId, CoreAction, EventState};
use crate::proxy::message::ProxyMessage;
use crate::relay;
use crate::shell::channels::InboundTransportPacket;
use crate::shell::clock;
use crate::shell::connections;
use crate::shell::connections::ConnectionState;
use crate::shell::runtime;
use crate::shell::runtime::RuntimeStep;

verus! {

// ---------------------------------------------------------------------------
// Connections
// ---------------------------------------------------------------------------

/// An address that leaves the table takes its session and its place among the pending ones
/// with it. The other addresses and sessions stay.
pub proof fn law_address_leaves(s: ConnectionState, addr: u64, other: u64, conv_id: ConvId)
    requires
        other != addr,
        !s.addrs.contains_key(addr) || s.addrs[addr] != conv_id,
    ensures
        ({
            let t = connections::without_addr(s, addr);
            &&& !t.addrs.contains_key(addr)
            &&& !t.pending.contains_key(addr)
            &&& s.addrs.contains_key(addr) ==> !t.sessions.contains_key(s.addrs[addr])
            &&& t.sessions.contains_key(conv_id) == s.sessions.contains_key(conv_id)
            &&& s.sessions.contains_key(conv_id) ==> t.sessions[conv_id] == s.sessions[conv_id]
            &&& t.addrs.contains_key(other) == s.addrs.contains_key(other)
            &&& s.addrs.contains_key(other) ==> t.addrs[other] == s.addrs[other]
            &&& t.pending.contains_key(other) == s.pending.contains_key(other)
            &&& s.pending.contains_key(other) ==> t.pending[other] == s.pending[other]
        }),
{
}

/// A session that leaves the table takes every address that has it along. The other sessions
/// stay, with their addresses, and so do the pending connections.
pub proof fn law_session_leaves(s: ConnectionState, conv_id: ConvId, other: ConvId, addr: u64)
    requires
        other != conv_id,
    ensures
        ({
            let t = connections::without_conv(s, conv_id);
            &&& !t.sessions.contains_key(conv_id)
            &&& t.sessions.contains_key(other) == s.sessions.contains_key(other)
            &&& s.sessions.contains_key(other) ==> t.sessions[other] == s.sessions[other]
            &&& t.addrs.contains_key(addr) <==> s.addrs.contains_key(addr) && s.addrs[addr]
                != conv_id
            &&& t.addrs.contains_key(addr) ==> t.addrs[addr] == s.addrs[addr]
            &&& t.pending == s.pending
        }),
{
}

// ---------------------------------------------------------------------------
// Actions
// ---------------------------------------------------------------------------

/// A session that the core opens is opened and attached, whether it was or not.
pub proof fn law_opened_session_is_attached(attached: Set<ConvId>, conv_id: ConvId, other: ConvId)
    requires
        other != conv_id,
    ensures
        ({
            let (after, step) = runtime::executed(attached, CoreAction::OpenSession { conv_id });
            &&& step == (RuntimeStep::Open { conv_id })
            &&& after.contains(conv_id)
            &&& after.contains(other) == attached.contains(other)
        }),
{
}

/// Bytes reach the session that they are for, if it is attached. They change no session.
pub proof fn law_bytes_reach_their_session(attached: Set<ConvId>, conv_id: ConvId, bytes: Vec<u8>)
    ensures
        ({
            let (after, step) = runtime::executed(
                attached,
                CoreAction::WriteSession { conv_id, bytes },
            );
            &&& after == attached
            &&& attached.contains(conv_id) ==> step == (RuntimeStep::Deliver {
                conv_id,
                message: ProxyMessage::Write(bytes),
            })
            &&& !attached.contains(conv_id) ==> step == RuntimeStep::Ignore
        }),
{
}

/// A session that the core closes is told the reason, if it is attached, and is attached no
/// longer. The others stay.
pub proof fn law_closed_session_is_told(
    attached: Set<ConvId>,
    conv_id: ConvId,
    reason: machine::CloseReason,
    other: ConvId,
)
    requires
        other != conv_id,
    ensures
        ({
            let (after, step) = runtime::executed(
                attached,
                CoreAction::CloseSession { conv_id, reason },
            );
            &&& attached.contains(conv_id) ==> step == (RuntimeStep::Deliver {
                conv_id,
                message: ProxyMessage::Close(reason),
            })
            &&& !attached.contains(conv_id) ==> step == RuntimeStep::Ignore
            &&& !after.contains(conv_id)
            &&& after.contains(other) == attached.contains(other)
        }),
{
}

/// A packet goes out on its channel as it is.
pub proof fn law_packet_goes_out(attached: Set<ConvId>, channel_id: ChannelId, bytes: Vec<u8>)
    ensures
        ({
            let (after, step) = runtime::executed(
                attached,
                CoreAction::SendTransportPacket { channel_id, bytes },
            );
            &&& after == attached
            &&& step matches RuntimeStep::Send { packet }
            &&& packet.channel_id == channel_id
            &&& packet.bytes == bytes
        }),
{
}

/// A session is attached after some actions if the last of them that opened or closed it
/// opened it, or if none did and it was attached before.
pub proof fn law_last_word_counts(
    attached: Set<ConvId>,
    actions: Seq<CoreAction>,
    action: CoreAction,
    conv_id: ConvId,
)
    ensures
        runtime::attached_after(attached, Seq::empty()) == attached,
        ({
            let before = runtime::attached_after(attached, actions);
            let after = runtime::attached_after(attached, actions.push(action));
            match action {
                CoreAction::OpenSession { conv_id: id } => after.contains(conv_id) <==> conv_id
                    == id || before.contains(conv_id),
                CoreAction::CloseSession { conv_id: id, .. } => after.contains(conv_id)
                    <==> conv_id != id && before.contains(conv_id),
                _ => after == before,
            }
        }),
{
    assert(actions.push(action).drop_last() =~= actions);
}

// ---------------------------------------------------------------------------
// Batches
// ---------------------------------------------------------------------------

/// The event that a packet of a batch is to a core.
pub open spec fn received(packet: InboundTransportPacket) -> EventState {
    EventState::TransportPacketReceived { channel_id: packet.channel_id, bytes: packet.bytes@ }
}

/// The packets of a batch reach an endpoint one after the other, up to the first that it does
/// not expect.
pub proof fn law_batch_is_received_in_order(
    st: model::Step,
    elapsed_ms: u64,
    batch: Seq<InboundTransportPacket>,
    packet: InboundTransportPacket,
)
    ensures
        runtime::batch_received(st, elapsed_ms, Seq::empty()) == (st, true),
        ({
            let (before, all) = runtime::batch_received(st, elapsed_ms, batch);
            let (after, more) = runtime::batch_received(st, elapsed_ms, batch.push(packet));
            let event = received(packet);
            &&& !all ==> !more && after == before
            &&& all && model::event_acceptable(before.core, elapsed_ms, event) ==> more && after
                == model::event_handled(before, elapsed_ms, event).0
            &&& all && !model::event_acceptable(before.core, elapsed_ms, event) ==> !more && after
                == before
        }),
    decreases batch.len(),
{
    let longer = batch.push(packet);
    assert(longer[0] == if batch.len() == 0 {
        packet
    } else {
        batch[0]
    });
    if batch.len() == 0 {
        assert(longer.drop_first() =~= Seq::empty());
        if model::event_acceptable(st.core, elapsed_ms, received(packet)) {
            let next = model::event_handled(st, elapsed_ms, received(packet)).0;
            assert(runtime::batch_received(next, elapsed_ms, longer.drop_first()) == (next, true));
        }
    } else {
        let event = received(batch[0]);
        assert(longer.drop_first() =~= batch.drop_first().push(packet));
        if model::event_acceptable(st.core, elapsed_ms, event) {
            law_batch_is_received_in_order(
                model::event_handled(st, elapsed_ms, event).0,
                elapsed_ms,
                batch.drop_first(),
                packet,
            );
        }
    }
}

/// The packets of a batch reach a relay one after the other, and what it wants done about one
/// comes after what it wants done about those before.
pub proof fn law_batch_is_relayed_in_order(
    s: relay::RelayState,
    elapsed_ms: u64,
    batch: Seq<InboundTransportPacket>,
    packet: InboundTransportPacket,
)
    ensures
        runtime::batch_relayed(s, elapsed_ms, Seq::empty()) == (s, Seq::<ActionState>::empty()),
        ({
            let (before, actions) = runtime::batch_relayed(s, elapsed_ms, batch);
            let (after, more) = relay::relay_step(before, elapsed_ms, received(packet));
            runtime::batch_relayed(s, elapsed_ms, batch.push(packet)) == (after, actions + more)
        }),
    decreases batch.len(),
{
    let longer = batch.push(packet);
    if batch.len() == 0 {
        assert(longer.drop_first() =~= Seq::empty());
        let (after, more) = relay::relay_step(s, elapsed_ms, received(packet));
        assert(runtime::batch_relayed(after, elapsed_ms, longer.drop_first()) == (
            after,
            Seq::<ActionState>::empty(),
        ));
        assert(longer[0] == packet);
        assert(more + Seq::<ActionState>::empty() =~= Seq::<ActionState>::empty() + more);
    } else {
        assert(longer[0] == batch[0]);
        assert(longer.drop_first() =~= batch.drop_first().push(packet));
        let (next, first) = relay::relay_step(s, elapsed_ms, received(batch[0]));
        law_batch_is_relayed_in_order(next, elapsed_ms, batch.drop_first(), packet);
        let (before, rest) = runtime::batch_relayed(next, elapsed_ms, batch.drop_first());
        let (after, more) = relay::relay_step(before, elapsed_ms, received(packet));
        assert(first + (rest + more) =~= (first + rest) + more);
    }
}

/// The packets among the actions go out in the order of the actions, each with its channel.
pub proof fn law_sends_are_kept(
    actions: Seq<ActionState>,
    channel_id: ChannelId,
    bytes: Seq<u8>,
    other: ActionState,
)
    requires
        !(other is SendTransportPacket),
    ensures
        runtime::sends_in(Seq::empty()) == Seq::<(ChannelId, Seq<u8>)>::empty(),
        runtime::sends_in(
            actions.push(ActionState::SendTransportPacket { channel_id, bytes }),
        ) == runtime::sends_in(actions).push((channel_id, bytes)),
        runtime::sends_in(actions.push(other)) == runtime::sends_in(actions),
{
    let send = ActionState::SendTransportPacket { channel_id, bytes };
    assert(actions.push(send).drop_last() =~= actions);
    assert(actions.push(other).drop_last() =~= actions);
}

// ---------------------------------------------------------------------------
// Clock
// ---------------------------------------------------------------------------

/// A time in milliseconds: a second is a thousand of them, and what is left of a millisecond
/// is dropped.
pub proof fn law_milliseconds(secs: u64, ms: u32, left: u32)
    requires
        ms < 1000,
        left < 1_000_000,
        secs * 1000 + ms <= u64::MAX,
    ensures
        clock::millis(secs, (ms * 1_000_000 + left) as u32) == secs * 1000 + ms,
{
    let nanos = (ms * 1_000_000 + left) as u32;
    assert(nanos as int / 1_000_000 == ms);
}

} // verus!
