//! The turns of the loops around an endpoint: when it is polled, what its actions come to,
//! and what a proxy's messages are to it.
use std::collections::BTreeMap;
use vstd::prelude::*;

use crate::endpoint::driver;
use crate::endpoint::driver::EndpointCore;
use crate::endpoint::model;
use crate::machine;
use crate::machine::{
    ActionState, ChannelId, CloseReason, ConvId, CoreAction, CoreEvent, CoreEventResult, EventState,
};
use crate::proxy::message::ProxyMessage;
use crate::relay;
use crate::relay::RelayCore;
use crate::shell::channels::{InboundTransportPacket, OutboundTransportPacket};

verus! {

broadcast use {vstd::std_specs::btree::group_btree_axioms, vstd::laws_cmp::group_laws_cmp};

/// How many packets are taken from a queue in one turn.
pub const PACKET_BATCH_SIZE: usize = 64;

/// What the poll loop does next.
#[derive(Debug, Clone, Copy, PartialEq, Eq, Structural)]
pub enum PollStep {
    /// The core is polled.
    Poll,
    /// The loop waits for this long, or until the deadline has changed.
    Wait { delay_ms: u64 },
}

/// A core is polled once its deadline has come. Else the loop waits for it, at most 100 ms;
/// without a deadline it looks again after 20 ms.
pub fn poll_step(now_ms: u64, deadline_ms: u64) -> (step: PollStep)
    ensures
        step == if deadline_ms <= now_ms {
            PollStep::Poll
        } else if deadline_ms == u64::MAX {
            PollStep::Wait { delay_ms: 20 }
        } else if deadline_ms - now_ms < 100 {
            PollStep::Wait { delay_ms: (deadline_ms - now_ms) as u64 }
        } else {
            PollStep::Wait { delay_ms: 100 }
        },
{
    if deadline_ms <= now_ms {
        return PollStep::Poll;
    }
    if deadline_ms == u64::MAX {
        return PollStep::Wait { delay_ms: 20 };
    }
    let left: u64 = deadline_ms - now_ms;
    if left < 100 {
        PollStep::Wait { delay_ms: left }
    } else {
        PollStep::Wait { delay_ms: 100 }
    }
}

/// What is done about an action of the core.
#[derive(Debug, Clone, PartialEq, Eq)]
pub enum RuntimeStep {
    /// A proxy session is opened and attached.
    Open { conv_id: ConvId },
    /// The message goes to the proxy session.
    Deliver { conv_id: ConvId, message: ProxyMessage },
    /// The packet goes out.
    Send { packet: OutboundTransportPacket },
    /// There is no such proxy session.
    Ignore,
}

/// What an action of the core comes to. A session that is opened is attached, one that is
/// closed is told so once and forgotten, and bytes for a session that is not attached are
/// dropped.
pub open spec fn executed(attached: Set<ConvId>, action: CoreAction) -> (
    Set<ConvId>,
    RuntimeStep,
) {
    match action {
        CoreAction::OpenSession { conv_id } => (
            attached.insert(conv_id),
            RuntimeStep::Open { conv_id },
        ),
        CoreAction::WriteSession { conv_id, bytes } => (
            attached,
            if attached.contains(conv_id) {
                RuntimeStep::Deliver { conv_id, message: ProxyMessage::Write(bytes) }
            } else {
                RuntimeStep::Ignore
            },
        ),
        CoreAction::CloseSession { conv_id, reason } => (
            attached.remove(conv_id),
            if attached.contains(conv_id) {
                RuntimeStep::Deliver { conv_id, message: ProxyMessage::Close(reason) }
            } else {
                RuntimeStep::Ignore
            },
        ),
        CoreAction::SendTransportPacket { channel_id, bytes } => (
            attached,
            RuntimeStep::Send { packet: OutboundTransportPacket { channel_id, bytes } },
        ),
    }
}

/// The sessions that are attached after these actions.
pub open spec fn attached_after(attached: Set<ConvId>, actions: Seq<CoreAction>) -> Set<ConvId>
    decreases actions.len(),
{
    if actions.len() == 0 {
        attached
    } else {
        executed(attached_after(attached, actions.drop_last()), actions.last()).0
    }
}

/// Which sessions have a proxy session attached.
pub struct Sessions {
    attached: BTreeMap<ConvId, ()>,
}

impl View for Sessions {
    type V = Set<ConvId>;

    closed spec fn view(&self) -> Set<ConvId> {
        self.attached@.dom()
    }
}

impl Sessions {
    pub fn new() -> (sessions: Sessions)
        ensures
            sessions@ == Set::<ConvId>::empty(),
    {
        let sessions = Sessions { attached: BTreeMap::new() };
        assert(sessions@ =~= Set::<ConvId>::empty());
        sessions
    }

    /// A proxy session is attached.
    pub fn attach(&mut self, conv_id: ConvId)
        ensures
            final(self)@ == old(self)@.insert(conv_id),
    {
        self.attached.insert(conv_id, ());
        assert(self@ =~= old(self)@.insert(conv_id));
    }

    /// A proxy session has ended.
    pub fn detach(&mut self, conv_id: ConvId)
        ensures
            final(self)@ == old(self)@.remove(conv_id),
    {
        self.attached.remove(&conv_id);
        assert(self@ =~= old(self)@.remove(conv_id));
    }

    /// What an action of the core comes to.
    pub fn execute(&mut self, action: CoreAction) -> (step: RuntimeStep)
        ensures
            (final(self)@, step) == executed(old(self)@, action),
    {
        match action {
            CoreAction::OpenSession { conv_id } => {
                self.attach(conv_id);
                RuntimeStep::Open { conv_id }
            },
            CoreAction::WriteSession { conv_id, bytes } => {
                if self.attached.contains_key(&conv_id) {
                    RuntimeStep::Deliver { conv_id, message: ProxyMessage::Write(bytes) }
                } else {
                    RuntimeStep::Ignore
                }
            },
            CoreAction::CloseSession { conv_id, reason } => {
                let told: bool = self.attached.contains_key(&conv_id);
                self.detach(conv_id);
                if told {
                    RuntimeStep::Deliver { conv_id, message: ProxyMessage::Close(reason) }
                } else {
                    RuntimeStep::Ignore
                }
            },
            CoreAction::SendTransportPacket { channel_id, bytes } => RuntimeStep::Send {
                packet: OutboundTransportPacket { channel_id, bytes },
            },
        }
    }
}

/// What a message of a proxy session is to the core, and whether it is the last one.
pub fn event_of(conv_id: ConvId, message: ProxyMessage) -> (event: (CoreEvent, bool))
    ensures
        match message {
            ProxyMessage::Write(bytes) => event == (
                CoreEvent::SessionWrite { conv_id, bytes },
                false,
            ),
            ProxyMessage::Close(reason) => event == (
                CoreEvent::SessionClose { conv_id, reason },
                true,
            ),
        },
{
    match message {
        ProxyMessage::Write(bytes) => (CoreEvent::SessionWrite { conv_id, bytes }, false),
        ProxyMessage::Close(reason) => (CoreEvent::SessionClose { conv_id, reason }, true),
    }
}

/// Whether a write has to be tried again, once something has happened that may have made
/// room. A write creates no session.
pub fn write_again(result: CoreEventResult) -> (again: bool)
    requires
        !(result is SessionCreated),
    ensures
        again == (result is SessionWriteBlocked),
{
    match result {
        CoreEventResult::SessionWriteBlocked => true,
        _ => false,
    }
}

// ---------------------------------------------------------------------------
// Batches
// ---------------------------------------------------------------------------

/// The packets of a batch arrive at an endpoint one after the other, up to the first that
/// breaks the contract between core and shell: the endpoint after them, and whether there was
/// none.
pub open spec fn batch_received(
    st: model::Step,
    elapsed_ms: u64,
    batch: Seq<InboundTransportPacket>,
) -> (model::Step, bool)
    decreases batch.len(),
{
    if batch.len() == 0 {
        (st, true)
    } else {
        let event = EventState::TransportPacketReceived {
            channel_id: batch[0].channel_id,
            bytes: batch[0].bytes@,
        };
        if !model::event_acceptable(st.core, elapsed_ms, event) {
            (st, false)
        } else {
            batch_received(
                model::event_handled(st, elapsed_ms, event).0,
                elapsed_ms,
                batch.drop_first(),
            )
        }
    }
}

/// Hands the packets of a batch to an endpoint. Says whether all of them kept to the contract.
pub fn receive_batch(
    core: &mut EndpointCore,
    elapsed_ms: u64,
    batch: Vec<InboundTransportPacket>,
    actions: &mut Vec<CoreAction>,
) -> (whole: bool)
    requires
        old(core).wf(),
    ensures
        final(core).wf(),
        (driver::step_of(*final(core), final(actions)@), whole) == batch_received(
            driver::step_of(*old(core), old(actions)@),
            elapsed_ms,
            batch@,
        ),
{
    let ghost end = batch_received(driver::step_of(*core, actions@), elapsed_ms, batch@);
    let mut left: Vec<InboundTransportPacket> = batch;
    while left.len() > 0
        invariant
            core.wf(),
            end == batch_received(driver::step_of(*old(core), old(actions)@), elapsed_ms, batch@),
            end == batch_received(driver::step_of(*core, actions@), elapsed_ms, left@),
        decreases left@.len(),
    {
        let ghost all = left@;
        let packet: InboundTransportPacket = left.remove(0);
        assert(left@ =~= all.drop_first());
        let event = CoreEvent::TransportPacketReceived {
            channel_id: packet.channel_id,
            bytes: packet.bytes,
        };
        if core.try_handle_event(elapsed_ms, event, actions).is_none() {
            return false;
        }
    }
    true
}

/// The packets of a batch arrive at a relay one after the other: the relay after them, and
/// what it wants done.
pub open spec fn batch_relayed(
    s: relay::RelayState,
    elapsed_ms: u64,
    batch: Seq<InboundTransportPacket>,
) -> (relay::RelayState, Seq<ActionState>)
    decreases batch.len(),
{
    if batch.len() == 0 {
        (s, Seq::empty())
    } else {
        let event = EventState::TransportPacketReceived {
            channel_id: batch[0].channel_id,
            bytes: batch[0].bytes@,
        };
        let (next, first) = relay::relay_step(s, elapsed_ms, event);
        let (end, rest) = batch_relayed(next, elapsed_ms, batch.drop_first());
        (end, first + rest)
    }
}

/// The packets among the actions.
pub open spec fn sends_in(actions: Seq<ActionState>) -> Seq<(ChannelId, Seq<u8>)>
    decreases actions.len(),
{
    if actions.len() == 0 {
        Seq::empty()
    } else {
        let rest = sends_in(actions.drop_last());
        match actions.last() {
            ActionState::SendTransportPacket { channel_id, bytes } => rest.push(
                (channel_id, bytes),
            ),
            _ => rest,
        }
    }
}

pub open spec fn packet_states(packets: Seq<OutboundTransportPacket>) -> Seq<(ChannelId, Seq<u8>)> {
    Seq::new(packets.len(), |i: int| (packets[i].channel_id, packets[i].bytes@))
}

/// Hands the packets of a batch to a relay, and takes the packets that it sends on.
pub fn relay_batch(core: &mut RelayCore, elapsed_ms: u64, batch: Vec<InboundTransportPacket>) -> (
    packets: Vec<OutboundTransportPacket>)
    requires
        old(core).wf(),
    ensures
        final(core).wf(),
        final(core)@ == batch_relayed(old(core)@, elapsed_ms, batch@).0,
        packet_states(packets@) == sends_in(batch_relayed(old(core)@, elapsed_ms, batch@).1),
{
    let ghost whole = batch_relayed(core@, elapsed_ms, batch@);
    let mut actions: Vec<CoreAction> = Vec::new();
    let mut left: Vec<InboundTransportPacket> = batch;
    assert(machine::action_states(actions@) + whole.1 =~= whole.1);
    while left.len() > 0
        invariant
            core.wf(),
            whole == batch_relayed(old(core)@, elapsed_ms, batch@),
            whole.0 == batch_relayed(core@, elapsed_ms, left@).0,
            whole.1 == machine::action_states(actions@) + batch_relayed(
                core@,
                elapsed_ms,
                left@,
            ).1,
        decreases left@.len(),
    {
        let ghost all = left@;
        let ghost before = core@;
        let ghost done = machine::action_states(actions@);
        let packet: InboundTransportPacket = left.remove(0);
        assert(left@ =~= all.drop_first());
        let event = CoreEvent::TransportPacketReceived {
            channel_id: packet.channel_id,
            bytes: packet.bytes,
        };
        core.handle_event(elapsed_ms, event, &mut actions);
        proof {
            let first = relay::relay_step(before, elapsed_ms, event@).1;
            let rest = batch_relayed(core@, elapsed_ms, left@).1;
            assert(done + (first + rest) =~= (done + first) + rest);
        }
    }
    assert(whole.1 =~= machine::action_states(actions@));
    sent_packets(actions)
}

/// The packets among the actions.
fn sent_packets(actions: Vec<CoreAction>) -> (packets: Vec<OutboundTransportPacket>)
    ensures
        packet_states(packets@) == sends_in(machine::action_states(actions@)),
{
    let ghost all = machine::action_states(actions@);
    let mut packets: Vec<OutboundTransportPacket> = Vec::new();
    let mut left: Vec<CoreAction> = actions;
    let ghost mut n: int = 0;
    assert(all.take(0) =~= Seq::<ActionState>::empty());
    assert(packet_states(packets@) =~= Seq::<(ChannelId, Seq<u8>)>::empty());
    assert(machine::action_states(left@) =~= all.skip(0));
    while left.len() > 0
        invariant
            all == machine::action_states(actions@),
            0 <= n <= all.len(),
            left@.len() == all.len() - n,
            machine::action_states(left@) == all.skip(n),
            packet_states(packets@) == sends_in(all.take(n)),
        decreases left@.len(),
    {
        let ghost some = all.take(n + 1);
        let ghost done = packet_states(packets@);
        let action: CoreAction = left.remove(0);
        proof {
            assert(some.drop_last() =~= all.take(n));
            assert(all.skip(n)[0] == action@);
            assert(some.last() == action@);
            assert(machine::action_states(left@) =~= all.skip(n).drop_first());
            assert(all.skip(n).drop_first() =~= all.skip(n + 1));
        }
        if let CoreAction::SendTransportPacket { channel_id, bytes } = action {
            packets.push(OutboundTransportPacket { channel_id, bytes });
            assert(packet_states(packets@) =~= done.push((channel_id, bytes@)));
        }
        proof {
            n = n + 1;
        }
    }
    assert(all.take(n) =~= all);
    packets
}

/// After the core has closed a session nothing reaches its proxy session, whatever the core
/// does, until the session is opened again.
pub proof fn law_closed_session_hears_nothing(
    attached: Set<ConvId>,
    conv_id: ConvId,
    reason: CloseReason,
    actions: Seq<CoreAction>,
    next: CoreAction,
)
    requires
        forall|i: int|
            0 <= i < actions.len() ==> (#[trigger] actions[i]) != (CoreAction::OpenSession {
                conv_id,
            }),
    ensures
        ({
            let closed = executed(attached, CoreAction::CloseSession { conv_id, reason }).0;
            let then = attached_after(closed, actions);
            &&& !then.contains(conv_id)
            &&& executed(then, next).1 matches RuntimeStep::Deliver { conv_id: told, .. } ==> told
                != conv_id
        }),
    decreases actions.len(),
{
    if actions.len() > 0 {
        let front = actions.drop_last();
        assert forall|i: int| 0 <= i < front.len() implies (#[trigger] front[i]) != (
        CoreAction::OpenSession { conv_id }) by {
            assert(front[i] == actions[i]);
        }
        law_closed_session_hears_nothing(attached, conv_id, reason, front, next);
        assert(actions[actions.len() - 1] == actions.last());
    }
}

} // verus!
