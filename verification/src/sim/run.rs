//! Carrying out the actions of an endpoint: what it sends goes on the network, what cannot be
//! sent comes back to it, and an echoing endpoint writes what it has received.
use vstd::prelude::*;

use crate::endpoint::driver::EndpointCore;
use crate::endpoint::guarantees;
use crate::endpoint::model;
use crate::endpoint::model::{EndpointState, Step};
use crate::machine;
use crate::machine::{ActionState, ConvId, CoreAction, CoreEvent, CoreEventResult, EventState};
use crate::octets;
use crate::routing;
use crate::sim::link::SimNodeId;
use crate::sim::network;
use crate::sim::network::{Network, NetworkState, SendOutcome};
use crate::sim::node;
use crate::sim::node::{NodeSessions, SessionsState};

verus! {

/// The endpoint at work, and its time.
#[derive(Debug, Clone, Copy, PartialEq, Eq, Structural)]
pub struct Place {
    pub node: SimNodeId,
    pub elapsed_ms: u64,
    /// The endpoint writes what it receives.
    pub echo: bool,
}

/// An endpoint with actions that are still to be carried out.
#[verifier::ext_equal]
pub struct Run {
    pub net: NetworkState,
    pub core: EndpointState,
    pub sessions: SessionsState,
    pub work: Seq<ActionState>,
    /// Something has come up that endpoint and shell do not expect of each other.
    pub halted: bool,
}

/// The sessions after a write was blocked, or taken.
pub open spec fn noted_write(
    s: SessionsState,
    conv_id: ConvId,
    bytes: Seq<u8>,
    result: CoreEventResult,
) -> SessionsState {
    SessionsState {
        blocked: if result == CoreEventResult::SessionWriteBlocked {
            s.blocked.insert(conv_id, bytes)
        } else {
            s.blocked.remove(conv_id)
        },
        ..s
    }
}

/// The endpoint deals with a refusal. What it wants done comes before the rest.
pub open spec fn refused(p: Place, r: Run, channel_id: u16, bytes: Seq<u8>) -> Run {
    let event = EventState::TransportPacketSendFailed { channel_id, bytes };
    if p.elapsed_ms == u64::MAX || !model::event_acceptable(r.core, p.elapsed_ms, event) {
        Run { halted: true, ..r }
    } else {
        let st = model::event_handled(
            Step { core: r.core, actions: Seq::empty() },
            p.elapsed_ms,
            event,
        ).0;
        Run { core: st.core, work: st.actions + r.work, ..r }
    }
}

/// A session of the endpoint writes. What the endpoint wants done comes before the rest.
pub open spec fn written(p: Place, r: Run, conv_id: ConvId, bytes: Seq<u8>) -> Run {
    let event = EventState::SessionWrite { conv_id, bytes };
    if !model::event_acceptable(r.core, p.elapsed_ms, event) {
        Run { halted: true, ..r }
    } else {
        let (st, result) = model::event_handled(
            Step { core: r.core, actions: Seq::empty() },
            p.elapsed_ms,
            event,
        );
        Run {
            core: st.core,
            sessions: noted_write(r.sessions, conv_id, bytes, result),
            work: st.actions + r.work,
            ..r
        }
    }
}

/// Nothing is left to do.
pub open spec fn finished(r: Run) -> bool {
    r.halted || r.work.len() == 0
}

/// One action is carried out.
pub open spec fn step(p: Place, r: Run) -> Run {
    if finished(r) {
        r
    } else {
        let rest = Run { work: r.work.drop_first(), ..r };
        match r.work[0] {
            ActionState::SendTransportPacket { channel_id, bytes } => {
                let (net, outcome) = network::sent(r.net, p.node, channel_id, bytes);
                let sent = Run { net, ..rest };
                if outcome is None {
                    refused(p, sent, channel_id, bytes)
                } else {
                    sent
                }
            },
            ActionState::OpenSession { conv_id } => Run {
                sessions: node::opened(r.sessions, conv_id),
                ..rest
            },
            ActionState::WriteSession { conv_id, bytes } => {
                let taken = Run {
                    sessions: node::grown(r.sessions, conv_id, bytes),
                    ..rest
                };
                if p.echo {
                    written(p, taken, conv_id, bytes)
                } else {
                    Run { net: network::arrived(r.net, bytes.len()), ..taken }
                }
            },
            ActionState::CloseSession { conv_id, .. } => Run {
                sessions: node::closed(r.sessions, conv_id),
                ..rest
            },
        }
    }
}

/// `n` actions are carried out.
pub open spec fn after(p: Place, r: Run, n: nat) -> Run
    decreases n,
{
    if n == 0 {
        r
    } else {
        step(p, after(p, r, (n - 1) as nat))
    }
}

/// All actions are carried out.
pub open spec fn settled(p: Place, r: Run) -> Run {
    after(p, r, choose|n: nat| finished(#[trigger] after(p, r, n)))
}

proof fn lemma_after_finished(p: Place, r: Run, n: nat, m: nat)
    requires
        finished(after(p, r, n)),
        n <= m,
    ensures
        after(p, r, m) == after(p, r, n),
    decreases m,
{
    if n < m {
        lemma_after_finished(p, r, n, (m - 1) as nat);
    }
}

proof fn lemma_settled(p: Place, r: Run, n: nat)
    requires
        finished(after(p, r, n)),
    ensures
        settled(p, r) == after(p, r, n),
{
    let m = choose|m: nat| finished(#[trigger] after(p, r, m));
    if n <= m {
        lemma_after_finished(p, r, n, m);
    } else {
        lemma_after_finished(p, r, m, n);
    }
}

// ---------------------------------------------------------------------------
// The actions come to an end
// ---------------------------------------------------------------------------

/// How many of the actions hand bytes to a session.
pub open spec fn writes_in(work: Seq<ActionState>) -> nat
    decreases work.len(),
{
    if work.len() == 0 {
        0
    } else {
        writes_in(work.drop_first()) + if work[0] is WriteSession {
            1nat
        } else {
            0
        }
    }
}

/// How many of the edges take packets.
pub open spec fn ways(edges: Seq<routing::Edge>, elapsed_ms: u64) -> nat
    decreases edges.len(),
{
    if edges.len() == 0 {
        0
    } else {
        ways(edges.drop_first(), elapsed_ms) + if routing::allowed(edges[0], elapsed_ms) {
            1nat
        } else {
            0
        }
    }
}

/// A packet for a channel that rests weighs twice as much as any other action.
pub open spec fn weight(g: routing::PlanGraph, elapsed_ms: u64, action: ActionState) -> nat {
    match action {
        ActionState::SendTransportPacket { channel_id, .. } => if routing::open_channel(
            g,
            elapsed_ms,
            channel_id,
        ) {
            1
        } else {
            2
        },
        _ => 1,
    }
}

pub open spec fn load(g: routing::PlanGraph, elapsed_ms: u64, work: Seq<ActionState>) -> nat
    decreases work.len(),
{
    if work.len() == 0 {
        0
    } else {
        load(g, elapsed_ms, work.drop_first()) + weight(g, elapsed_ms, work[0])
    }
}

proof fn lemma_writes_append(a: Seq<ActionState>, b: Seq<ActionState>)
    ensures
        writes_in(a + b) == writes_in(a) + writes_in(b),
    decreases a.len(),
{
    if a.len() == 0 {
        assert(a + b =~= b);
    } else {
        assert((a + b).drop_first() =~= a.drop_first() + b);
        lemma_writes_append(a.drop_first(), b);
    }
}

proof fn lemma_no_writes(work: Seq<ActionState>)
    requires
        forall|i: int| 0 <= i < work.len() ==> (#[trigger] work[i]) !is WriteSession,
    ensures
        writes_in(work) == 0,
    decreases work.len(),
{
    if work.len() > 0 {
        lemma_no_writes(work.drop_first());
    }
}

proof fn lemma_fewer_ways(a: Seq<routing::Edge>, b: Seq<routing::Edge>, elapsed_ms: u64)
    requires
        a.len() == b.len(),
        forall|k: int|
            #![trigger a[k]]
            #![trigger b[k]]
            0 <= k < a.len() && routing::allowed(b[k], elapsed_ms) ==> routing::allowed(
                a[k],
                elapsed_ms,
            ),
    ensures
        ways(b, elapsed_ms) <= ways(a, elapsed_ms),
        (exists|k: int|
            0 <= k < a.len() && routing::allowed(#[trigger] a[k], elapsed_ms) && !routing::allowed(
                b[k],
                elapsed_ms,
            )) ==> ways(b, elapsed_ms) < ways(a, elapsed_ms),
    decreases a.len(),
{
    if a.len() > 0 {
        let c = a.drop_first();
        let d = b.drop_first();
        assert forall|k: int|
            #![trigger c[k]]
            #![trigger d[k]]
            0 <= k < c.len() && routing::allowed(d[k], elapsed_ms) implies routing::allowed(
            c[k],
            elapsed_ms,
        ) by {
            assert(c[k] == a[k + 1]);
            assert(d[k] == b[k + 1]);
        }
        lemma_fewer_ways(c, d, elapsed_ms);
        assert(routing::allowed(b[0], elapsed_ms) ==> routing::allowed(a[0], elapsed_ms));
        if exists|k: int|
            0 <= k < a.len() && routing::allowed(#[trigger] a[k], elapsed_ms) && !routing::allowed(
                b[k],
                elapsed_ms,
            ) {
            let k = choose|k: int|
                0 <= k < a.len() && routing::allowed(#[trigger] a[k], elapsed_ms)
                    && !routing::allowed(b[k], elapsed_ms);
            if k > 0 {
                assert(c[k - 1] == a[k]);
                assert(d[k - 1] == b[k]);
            }
        }
    }
}

proof fn lemma_same_load(
    g: routing::PlanGraph,
    h: routing::PlanGraph,
    elapsed_ms: u64,
    work: Seq<ActionState>,
)
    requires
        forall|c: u16|
            routing::open_channel(g, elapsed_ms, c) == #[trigger] routing::open_channel(
                h,
                elapsed_ms,
                c,
            ),
    ensures
        load(g, elapsed_ms, work) == load(h, elapsed_ms, work),
    decreases work.len(),
{
    if work.len() > 0 {
        lemma_same_load(g, h, elapsed_ms, work.drop_first());
        if let ActionState::SendTransportPacket { channel_id, .. } = work[0] {
            assert(routing::open_channel(g, elapsed_ms, channel_id) == routing::open_channel(
                h,
                elapsed_ms,
                channel_id,
            ));
        }
    }
}

/// What grows less with every action.
pub open spec fn shrinks(p: Place, r: Run, t: Run) -> bool {
    let t_ms = p.elapsed_ms;
    ||| writes_in(t.work) < writes_in(r.work)
    ||| writes_in(t.work) == writes_in(r.work) && ways(t.core.planner[0], t_ms) < ways(
        r.core.planner[0],
        t_ms,
    )
    ||| writes_in(t.work) == writes_in(r.work) && ways(t.core.planner[0], t_ms) == ways(
        r.core.planner[0],
        t_ms,
    ) && load(t.core.planner, t_ms, t.work) < load(r.core.planner, t_ms, r.work)
}

/// Refusals come to an end: each one rests a channel, or is answered by a packet on a channel
/// that does not rest.
proof fn lemma_refused_shrinks(p: Place, r: Run, net: NetworkState)
    requires
        model::endpoint_ok(r.core),
        r.work.len() > 0,
        r.work[0] is SendTransportPacket,
        ({
            let rest = Run { work: r.work.drop_first(), net, ..r };
            !refused(p, rest, r.work[0]->SendTransportPacket_channel_id, r.work[0]->SendTransportPacket_bytes).halted
        }),
    ensures
        ({
            let rest = Run { work: r.work.drop_first(), net, ..r };
            shrinks(
                p,
                r,
                refused(p, rest, r.work[0]->SendTransportPacket_channel_id, r.work[0]->SendTransportPacket_bytes),
            )
        }),
{
    let channel_id = r.work[0]->SendTransportPacket_channel_id;
    let bytes = r.work[0]->SendTransportPacket_bytes;
    let rest = Run { work: r.work.drop_first(), net, ..r };
    let t = refused(p, rest, channel_id, bytes);
    let before = Step { core: r.core, actions: Seq::<ActionState>::empty() };
    let event = EventState::TransportPacketSendFailed { channel_id, bytes };
    let st = model::event_handled(before, p.elapsed_ms, event).0;
    guarantees::law_refusal_rests_the_channel(before, p.elapsed_ms, channel_id, bytes);
    let g = r.core.planner;
    let h = st.core.planner;
    let t_ms = p.elapsed_ms;
    lemma_writes_append(st.actions, rest.work);
    assert forall|i: int| 0 <= i < st.actions.len() implies (
    #[trigger] st.actions[i]) !is WriteSession by {
        assert(st.actions.len() == 1);
    }
    lemma_no_writes(st.actions);
    assert(writes_in(t.work) == writes_in(r.work));
    assert forall|k: int|
        #![trigger g[0][k]]
        #![trigger h[0][k]]
        0 <= k < g[0].len() && routing::allowed(h[0][k], t_ms) implies routing::allowed(
        g[0][k],
        t_ms,
    ) by {
        assert(h[0][k].channel_id == g[0][k].channel_id);
    }
    lemma_fewer_ways(g[0], h[0], t_ms);
    if routing::open_channel(g, t_ms, channel_id) {
        let k = choose|k: int|
            0 <= k < g[0].len() && (#[trigger] g[0][k]).channel_id == channel_id
                && routing::allowed(g[0][k], t_ms);
        assert(!routing::allowed(h[0][k], t_ms));
        assert(routing::allowed(g[0][k], t_ms));
    } else {
        assert forall|k: int|
            #![trigger g[0][k]]
            #![trigger h[0][k]]
            0 <= k < g[0].len() && routing::allowed(g[0][k], t_ms) implies routing::allowed(
            h[0][k],
            t_ms,
        ) by {
            assert(h[0][k].channel_id == g[0][k].channel_id);
            assert(g[0][k].channel_id != channel_id);
        }
        lemma_fewer_ways(h[0], g[0], t_ms);
        assert forall|c: u16|
            routing::open_channel(g, t_ms, c) == #[trigger] routing::open_channel(h, t_ms, c) by {
            if routing::open_channel(g, t_ms, c) {
                let k = choose|k: int|
                    0 <= k < g[0].len() && (#[trigger] g[0][k]).channel_id == c
                        && routing::allowed(g[0][k], t_ms);
                assert(h[0][k].channel_id == c);
            }
            if routing::open_channel(h, t_ms, c) {
                let k = choose|k: int|
                    0 <= k < h[0].len() && (#[trigger] h[0][k]).channel_id == c
                        && routing::allowed(h[0][k], t_ms);
                assert(g[0][k].channel_id == c);
            }
        }
        lemma_same_load(g, h, t_ms, rest.work);
        assert(load(g, t_ms, r.work) == load(g, t_ms, rest.work) + 2);
        if st.actions.len() == 0 {
            assert(t.work =~= rest.work);
        } else {
            assert(t.work.drop_first() =~= rest.work);
            assert(t.work[0] == st.actions.last());
        }
    }
}

/// The actions come to an end: each one is carried out, or makes way for lighter ones.
pub proof fn law_actions_come_to_an_end(p: Place, r: Run)
    requires
        model::endpoint_ok(r.core),
        !finished(r),
        !step(p, r).halted,
    ensures
        shrinks(p, r, step(p, r)),
{
    let rest = Run { work: r.work.drop_first(), ..r };
    match r.work[0] {
        ActionState::SendTransportPacket { channel_id, bytes } => {
            let (net, outcome) = network::sent(r.net, p.node, channel_id, bytes);
            if outcome is None {
                assert(Run { net, ..rest } == (Run { work: r.work.drop_first(), net, ..r }));
                lemma_refused_shrinks(p, r, net);
            }
        },
        ActionState::WriteSession { conv_id, bytes } => {
            if p.echo {
                let before = Step { core: r.core, actions: Seq::<ActionState>::empty() };
                let event = EventState::SessionWrite { conv_id, bytes };
                let st = model::event_handled(before, p.elapsed_ms, event).0;
                guarantees::law_write_hands_nothing_back(before, p.elapsed_ms, conv_id, bytes);
                lemma_no_writes(st.actions);
                lemma_writes_append(st.actions, rest.work);
            }
        },
        _ => {},
    }
}

/// Carrying out actions takes no time, and changes no link.
pub proof fn law_actions_take_no_time(p: Place, r: Run)
    ensures
        settled(p, r).net.now_ms == r.net.now_ms,
        settled(p, r).net.links == r.net.links,
{
    lemma_no_time(p, r, choose|n: nat| finished(#[trigger] after(p, r, n)));
}

proof fn lemma_no_time(p: Place, r: Run, n: nat)
    ensures
        after(p, r, n).net.now_ms == r.net.now_ms,
        after(p, r, n).net.links == r.net.links,
    decreases n,
{
    if n > 0 {
        lemma_no_time(p, r, (n - 1) as nat);
    }
}

// ---------------------------------------------------------------------------
// Execution
// ---------------------------------------------------------------------------

/// A session of the endpoint writes. Says whether the write was taken, and not blocked;
/// nothing happens if the endpoint does not expect one.
pub fn write_bytes(
    place: Place,
    core: &mut EndpointCore,
    sessions: &mut NodeSessions,
    conv_id: ConvId,
    bytes: Vec<u8>,
) -> (taken: Option<(bool, Vec<CoreAction>)>)
    requires
        old(core).wf(),
    ensures
        final(core).wf(),
        ({
            let event = EventState::SessionWrite { conv_id, bytes: bytes@ };
            if model::event_acceptable(old(core)@, place.elapsed_ms, event) {
                let (st, result) = model::event_handled(
                    Step { core: old(core)@, actions: Seq::empty() },
                    place.elapsed_ms,
                    event,
                );
                &&& taken matches Some((whole, actions))
                &&& whole == (result == CoreEventResult::Handled)
                &&& machine::action_states(actions@) == st.actions
                &&& final(core)@ == st.core
                &&& final(sessions)@ == noted_write(old(sessions)@, conv_id, bytes@, result)
            } else {
                &&& taken is None
                &&& *final(core) == *old(core)
                &&& *final(sessions) == *old(sessions)
            }
        }),
{
    let mut actions: Vec<CoreAction> = Vec::new();
    assert(machine::action_states(actions@) =~= Seq::<ActionState>::empty());
    let copy: Vec<u8> = octets::copy_range(bytes.as_slice(), 0, bytes.len());
    assert(copy@ =~= bytes@);
    let event = CoreEvent::SessionWrite { conv_id, bytes: copy };
    match core.try_handle_event(place.elapsed_ms, event, &mut actions) {
        None => None,
        Some(result) => {
            let blocked: bool = result == CoreEventResult::SessionWriteBlocked;
            sessions.wrote(conv_id, bytes, blocked);
            Some((!blocked, actions))
        },
    }
}

/// The actions, and behind them the rest.
fn before_rest(actions: Vec<CoreAction>, rest: Vec<CoreAction>) -> (work: Vec<CoreAction>)
    ensures
        machine::action_states(work@) == machine::action_states(actions@)
            + machine::action_states(rest@),
{
    let mut work: Vec<CoreAction> = actions;
    let mut behind: Vec<CoreAction> = rest;
    work.append(&mut behind);
    assert(machine::action_states(work@) =~= machine::action_states(actions@)
        + machine::action_states(rest@));
    work
}

/// Carries out the actions of an endpoint, and those that they lead to. Says whether
/// something came up that endpoint and shell do not expect of each other.
pub fn settle(
    place: Place,
    network: &mut Network,
    core: &mut EndpointCore,
    sessions: &mut NodeSessions,
    actions: Vec<CoreAction>,
) -> (halted: bool)
    requires
        old(network).wf(),
        old(core).wf(),
    ensures
        final(network).wf(),
        final(core).wf(),
        ({
            let end = settled(
                place,
                Run {
                    net: old(network)@,
                    core: old(core)@,
                    sessions: old(sessions)@,
                    work: machine::action_states(actions@),
                    halted: false,
                },
            );
            &&& final(network)@ == end.net
            &&& final(core)@ == end.core
            &&& final(sessions)@ == end.sessions
            &&& halted == end.halted
        }),
{
    let mut work: Vec<CoreAction> = actions;
    let ghost start = Run {
        net: network@,
        core: core@,
        sessions: sessions@,
        work: machine::action_states(work@),
        halted: false,
    };
    let ghost mut n: nat = 0;
    while work.len() > 0
        invariant
            start == (Run {
                net: old(network)@,
                core: old(core)@,
                sessions: old(sessions)@,
                work: machine::action_states(actions@),
                halted: false,
            }),
            network.wf(),
            core.wf(),
            after(place, start, n) == (Run {
                net: network@,
                core: core@,
                sessions: sessions@,
                work: machine::action_states(work@),
                halted: false,
            }),
        decreases
                writes_in(machine::action_states(work@)),
                ways(core@.planner[0], place.elapsed_ms),
                load(core@.planner, place.elapsed_ms, machine::action_states(work@)),
    {
        let ghost r = after(place, start, n);
        proof {
            core.lemma_ok();
            n = n + 1;
            assert(after(place, start, n) == step(place, r));
            if !step(place, r).halted {
                law_actions_come_to_an_end(place, r);
            } else {
                lemma_settled(place, start, n);
            }
        }
        let action: CoreAction = work.remove(0);
        assert(machine::action_states(work@) =~= r.work.drop_first());
        assert(action@ == r.work[0]);
        match action {
            CoreAction::SendTransportPacket { channel_id, bytes } => {
                match network.send(place.node, channel_id, bytes) {
                    SendOutcome::Queued => {},
                    SendOutcome::Lost => {},
                    SendOutcome::Failed { bytes } => {
                        if place.elapsed_ms == u64::MAX {
                            return true;
                        }
                        let mut more: Vec<CoreAction> = Vec::new();
                        assert(machine::action_states(more@) =~= Seq::<ActionState>::empty());
                        let event = CoreEvent::TransportPacketSendFailed { channel_id, bytes };
                        match core.try_handle_event(place.elapsed_ms, event, &mut more) {
                            None => {
                                return true;
                            },
                            Some(_) => {
                                work = before_rest(more, work);
                            },
                        }
                    },
                }
            },
            CoreAction::OpenSession { conv_id } => {
                sessions.open(conv_id);
            },
            CoreAction::WriteSession { conv_id, bytes } => {
                sessions.receive(conv_id, &bytes);
                if place.echo {
                    match write_bytes(place, core, sessions, conv_id, bytes) {
                        None => {
                            return true;
                        },
                        Some((_, more)) => {
                            work = before_rest(more, work);
                        },
                    }
                } else {
                    network.delivered_bytes(bytes.len());
                }
            },
            CoreAction::CloseSession { conv_id, .. } => {
                sessions.close(conv_id);
            },
        }
    }
    proof {
        lemma_settled(place, start, n);
    }
    false
}

} // verus!
