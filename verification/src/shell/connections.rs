//! Local connections of an endpoint: pending ones, and those that have a session.
use std::collections::BTreeMap;
use vstd::prelude::*;

use crate::hop::endpoint::CoreAction;
use crate::hop::machine::ConvId;
use crate::hop::wire::{ChannelId, CloseReason};
use crate::ordered;

verus! {

broadcast use {vstd::std_specs::btree::group_btree_axioms, vstd::laws_cmp::group_laws_cmp};

/// The table: the writer of each session, the session of each address, and the writer of
/// each address that has no session yet. Addresses and writers are handles of the caller's
/// choice.
#[verifier::ext_equal]
pub struct ConnectionState {
    pub sessions: Map<ConvId, u64>,
    pub addrs: Map<u64, ConvId>,
    pub pending: Map<u64, u64>,
}

/// The table without an address.
pub open spec fn without_addr(s: ConnectionState, addr: u64) -> ConnectionState {
    ConnectionState {
        sessions: if s.addrs.contains_key(addr) {
            s.sessions.remove(s.addrs[addr])
        } else {
            s.sessions
        },
        addrs: s.addrs.remove(addr),
        pending: s.pending.remove(addr),
    }
}

/// The table without a session.
pub open spec fn without_conv(s: ConnectionState, conv_id: ConvId) -> ConnectionState {
    ConnectionState {
        sessions: s.sessions.remove(conv_id),
        addrs: s.addrs.restrict(
            Set::new(|addr: u64| s.addrs.contains_key(addr) && s.addrs[addr] != conv_id),
        ),
        ..s
    }
}

pub struct Connections {
    sessions: BTreeMap<ConvId, u64>,
    addrs: BTreeMap<u64, ConvId>,
    pending: BTreeMap<u64, u64>,
}

impl View for Connections {
    type V = ConnectionState;

    closed spec fn view(&self) -> ConnectionState {
        ConnectionState {
            sessions: self.sessions@,
            addrs: self.addrs@,
            pending: self.pending@,
        }
    }
}

/// What a read of a local connection came to.
#[derive(Debug, Clone, PartialEq, Eq)]
pub enum ReadOutcome {
    End,
    Bytes { bytes: Vec<u8> },
    WouldBlock,
    Failed { message: String },
}

/// What is done about a read.
#[derive(Debug, Clone, PartialEq, Eq)]
pub enum ReadStep {
    /// The connection leaves the table. Its session, if it had one, ends for this reason.
    Stop { closed: Option<(ConvId, CloseReason)> },
    /// The bytes go to this session.
    Forward { conv_id: ConvId, bytes: Vec<u8> },
    /// The connection has no session: the bytes are lost.
    Drop,
    /// Read again a millisecond later.
    Sleep,
}

/// What is done about an action of the core.
#[derive(Debug, Clone, PartialEq, Eq)]
pub enum ActionStep {
    /// The connection has got its session.
    Bound,
    /// No connection waits for this session.
    NotPending { conv_id: ConvId },
    Send { channel_id: ChannelId, bytes: Vec<u8> },
    Ignored,
    /// The core is not expected to want this here.
    Unexpected,
}

/// An action that answers an event of a local connection: packets are sent, and nothing else
/// is expected.
pub fn on_action(action: CoreAction) -> (step: ActionStep)
    ensures
        step == match action {
            CoreAction::SendTransportPacket { channel_id, bytes } => ActionStep::Send {
                channel_id,
                bytes,
            },
            CoreAction::EmitMetric(_) => ActionStep::Ignored,
            CoreAction::EmitEvent(_) => ActionStep::Ignored,
            _ => ActionStep::Unexpected,
        },
{
    match action {
        CoreAction::SendTransportPacket { channel_id, bytes } => ActionStep::Send {
            channel_id,
            bytes,
        },
        CoreAction::EmitMetric(_) => ActionStep::Ignored,
        CoreAction::EmitEvent(_) => ActionStep::Ignored,
        _ => ActionStep::Unexpected,
    }
}

impl Connections {
    pub fn new() -> (connections: Connections)
        ensures
            connections@ == (ConnectionState {
                sessions: Map::empty(),
                addrs: Map::empty(),
                pending: Map::empty(),
            }),
    {
        Connections {
            sessions: BTreeMap::new(),
            addrs: BTreeMap::new(),
            pending: BTreeMap::new(),
        }
    }

    /// An action that answers the request of a new connection: it gets the session that has
    /// been created for it.
    pub fn on_ingress_action(&mut self, addr: u64, action: CoreAction) -> (step: ActionStep)
        ensures
            match action {
                CoreAction::IngressSessionCreated { conv_id } => if old(
                    self,
                )@.pending.contains_key(addr) {
                    &&& step == ActionStep::Bound
                    &&& final(self)@ == (ConnectionState {
                        sessions: old(self)@.sessions.insert(conv_id, old(self)@.pending[addr]),
                        addrs: old(self)@.addrs.insert(addr, conv_id),
                        pending: old(self)@.pending.remove(addr),
                    })
                } else {
                    &&& step == (ActionStep::NotPending { conv_id })
                    &&& final(self)@ == old(self)@
                },
                CoreAction::SendTransportPacket { channel_id, bytes } => {
                    &&& step == (ActionStep::Send { channel_id, bytes })
                    &&& final(self)@ == old(self)@
                },
                CoreAction::EmitMetric(_) | CoreAction::EmitEvent(_) => {
                    &&& step == ActionStep::Ignored
                    &&& final(self)@ == old(self)@
                },
                _ => step == ActionStep::Unexpected && final(self)@ == old(self)@,
            },
    {
        if let CoreAction::IngressSessionCreated { conv_id } = action {
            if self.bind_pending(addr, conv_id) {
                ActionStep::Bound
            } else {
                ActionStep::NotPending { conv_id }
            }
        } else {
            on_action(action)
        }
    }

    /// A new connection, without a session.
    pub fn insert_pending(&mut self, addr: u64, writer: u64)
        ensures
            final(self)@ == (ConnectionState {
                pending: old(self)@.pending.insert(addr, writer),
                ..old(self)@
            }),
    {
        self.pending.insert(addr, writer);
    }

    /// A pending connection gets its session. Says whether it was pending.
    pub fn bind_pending(&mut self, addr: u64, conv_id: ConvId) -> (bound: bool)
        ensures
            bound == old(self)@.pending.contains_key(addr),
            final(self)@ == if bound {
                ConnectionState {
                    sessions: old(self)@.sessions.insert(conv_id, old(self)@.pending[addr]),
                    addrs: old(self)@.addrs.insert(addr, conv_id),
                    pending: old(self)@.pending.remove(addr),
                }
            } else {
                old(self)@
            },
    {
        match self.pending.remove(&addr) {
            Some(writer) => {
                self.sessions.insert(conv_id, writer);
                self.addrs.insert(addr, conv_id);
                true
            },
            None => {
                assert(self@.pending =~= old(self)@.pending);
                false
            },
        }
    }

    pub fn insert_session(&mut self, addr: u64, conv_id: ConvId, writer: u64)
        ensures
            final(self)@ == (ConnectionState {
                sessions: old(self)@.sessions.insert(conv_id, writer),
                addrs: old(self)@.addrs.insert(addr, conv_id),
                ..old(self)@
            }),
    {
        self.sessions.insert(conv_id, writer);
        self.addrs.insert(addr, conv_id);
    }

    pub fn remove_addr(&mut self, addr: u64)
        ensures
            final(self)@ == without_addr(old(self)@, addr),
    {
        self.pending.remove(&addr);
        if let Some(conv_id) = self.addrs.remove(&addr) {
            self.sessions.remove(&conv_id);
        }
    }

    /// Removes a session, and every address that has it.
    pub fn remove_conv(&mut self, conv_id: ConvId)
        ensures
            final(self)@ == without_conv(old(self)@, conv_id),
    {
        self.sessions.remove(&conv_id);
        let keys: Vec<u64> = ordered::sorted_keys(&self.addrs);
        let ghost before = self.addrs@;
        let mut i: usize = 0;
        while i < keys.len()
            invariant
                i <= keys@.len(),
                before == old(self)@.addrs,
                self.sessions@ == old(self)@.sessions.remove(conv_id),
                self.pending@ == old(self)@.pending,
                ordered::is_ascending(keys@, before.dom()),
                forall|addr: u64| #[trigger]
                    self.addrs@.contains_key(addr) ==> before.contains_key(addr)
                        && self.addrs@[addr] == before[addr],
                forall|j: int|
                    0 <= j < i ==> (self.addrs@.contains_key(#[trigger] keys@[j]) <==> before[keys@[j]]
                        != conv_id),
                forall|j: int|
                    i <= j < keys@.len() ==> self.addrs@.contains_key(#[trigger] keys@[j]),
            decreases keys@.len() - i,
        {
            let addr: u64 = keys[i];
            assert(keys@.contains(addr));
            assert(before.dom().contains(addr));
            assert(self.addrs@.contains_key(addr));
            if let Some(mapped) = self.addrs.get(&addr) {
                if *mapped == conv_id {
                    self.addrs.remove(&addr);
                }
            }
            i = i + 1;
        }
        proof {
            let after = without_conv(old(self)@, conv_id).addrs;
            assert forall|addr: u64| self.addrs@.contains_key(addr) <==> after.contains_key(
                addr,
            ) by {
                if before.contains_key(addr) {
                    assert(before.dom().contains(addr));
                    assert(keys@.contains(addr));
                    let j = choose|j: int| 0 <= j < keys@.len() && keys@[j] == addr;
                    assert(self.addrs@.contains_key(keys@[j]) <==> before[keys@[j]] != conv_id);
                }
            }
            assert(self.addrs@ =~= after);
        }
    }

    pub fn conv_id(&self, addr: u64) -> (conv_id: Option<ConvId>)
        ensures
            conv_id == if self@.addrs.contains_key(addr) {
                Some(self@.addrs[addr])
            } else {
                None::<ConvId>
            },
    {
        match self.addrs.get(&addr) {
            Some(conv_id) => Some(*conv_id),
            None => None,
        }
    }

    /// The writer of a session.
    pub fn get(&self, conv_id: ConvId) -> (writer: Option<u64>)
        ensures
            writer == if self@.sessions.contains_key(conv_id) {
                Some(self@.sessions[conv_id])
            } else {
                None::<u64>
            },
    {
        match self.sessions.get(&conv_id) {
            Some(writer) => Some(*writer),
            None => None,
        }
    }

    /// A local connection has been read. Bytes go to its session; where the connection has
    /// ended or failed it leaves the table, and its session ends with it.
    pub fn on_read(&mut self, addr: u64, outcome: ReadOutcome) -> (step: ReadStep)
        ensures
            match outcome {
                ReadOutcome::End => {
                    &&& final(self)@ == without_addr(old(self)@, addr)
                    &&& step == (ReadStep::Stop {
                        closed: if old(self)@.addrs.contains_key(addr) {
                            Some((old(self)@.addrs[addr], CloseReason::LocalClosed))
                        } else {
                            None
                        },
                    })
                },
                ReadOutcome::Failed { message } => {
                    &&& final(self)@ == without_addr(old(self)@, addr)
                    &&& step == (ReadStep::Stop {
                        closed: if old(self)@.addrs.contains_key(addr) {
                            Some((old(self)@.addrs[addr], CloseReason::Error(message)))
                        } else {
                            None
                        },
                    })
                },
                ReadOutcome::Bytes { bytes } => {
                    &&& final(self)@ == old(self)@
                    &&& step == if old(self)@.addrs.contains_key(addr) {
                        ReadStep::Forward { conv_id: old(self)@.addrs[addr], bytes }
                    } else {
                        ReadStep::Drop
                    }
                },
                ReadOutcome::WouldBlock => step == ReadStep::Sleep && final(self)@ == old(self)@,
            },
    {
        let conv_id: Option<ConvId> = self.conv_id(addr);
        match outcome {
            ReadOutcome::End => {
                self.remove_addr(addr);
                match conv_id {
                    Some(conv_id) => ReadStep::Stop {
                        closed: Some((conv_id, CloseReason::LocalClosed)),
                    },
                    None => ReadStep::Stop { closed: None },
                }
            },
            ReadOutcome::Failed { message } => {
                self.remove_addr(addr);
                match conv_id {
                    Some(conv_id) => ReadStep::Stop {
                        closed: Some((conv_id, CloseReason::Error(message))),
                    },
                    None => ReadStep::Stop { closed: None },
                }
            },
            ReadOutcome::Bytes { bytes } => match conv_id {
                Some(conv_id) => ReadStep::Forward { conv_id, bytes },
                None => ReadStep::Drop,
            },
            ReadOutcome::WouldBlock => ReadStep::Sleep,
        }
    }
}

/// A connection that comes, gets a session of its own and ends leaves nothing behind.
pub proof fn law_ended_connection_leaves_nothing(
    s: ConnectionState,
    addr: u64,
    writer: u64,
    conv_id: ConvId,
)
    requires
        !s.pending.contains_key(addr),
        !s.addrs.contains_key(addr),
        !s.sessions.contains_key(conv_id),
    ensures
        without_addr(
            ConnectionState {
                sessions: s.sessions.insert(conv_id, writer),
                addrs: s.addrs.insert(addr, conv_id),
                ..s
            },
            addr,
        ) == s,
{
    let t = without_addr(
        ConnectionState {
            sessions: s.sessions.insert(conv_id, writer),
            addrs: s.addrs.insert(addr, conv_id),
            ..s
        },
        addr,
    );
    assert(t.sessions =~= s.sessions);
    assert(t.addrs =~= s.addrs);
    assert(t.pending =~= s.pending);
}

} // verus!
