//! Which local connection belongs to which session.
use std::collections::BTreeMap;
use vstd::prelude::*;

use crate::ordered;
use crate::tunnel::session;

verus! {

broadcast use {vstd::std_specs::btree::group_btree_axioms, vstd::laws_cmp::group_laws_cmp};

/// The table: the local connections, the conversation of each that has a session, and the
/// connection of each session.
#[verifier::ext_equal]
pub struct ConnectionState {
    pub cons: Set<u64>,
    pub convs: Map<u64, u32>,
    pub kcps: Map<u32, u64>,
}

/// Connections and sessions go together one to one.
pub open spec fn matched(s: ConnectionState) -> bool {
    &&& forall|addr: u64| #[trigger]
        s.convs.contains_key(addr) ==> s.kcps.contains_key(s.convs[addr])
            && s.kcps[s.convs[addr]] == addr
    &&& forall|conv: u32| #[trigger]
        s.kcps.contains_key(conv) ==> s.convs.contains_key(s.kcps[conv])
            && s.convs[s.kcps[conv]] == conv
}

/// The table with a new session.
pub open spec fn assigned(s: ConnectionState, addr: u64, conv: u32) -> ConnectionState {
    ConnectionState {
        convs: s.convs.insert(addr, conv),
        kcps: s.kcps.insert(conv, addr),
        ..s
    }
}

/// The table without the session of a connection.
pub open spec fn closed(s: ConnectionState, addr: u64) -> ConnectionState {
    if s.convs.contains_key(addr) {
        ConnectionState {
            convs: s.convs.remove(addr),
            kcps: s.kcps.remove(s.convs[addr]),
            ..s
        }
    } else {
        s
    }
}

/// The connection can take a new session: it has none, or one that has ended.
pub open spec fn spare(s: ConnectionState, ended: Seq<u32>, addr: u64) -> bool {
    s.cons.contains(addr) && (!s.convs.contains_key(addr) || ended.contains(s.convs[addr]))
}

/// The connection with the smallest handle that can take a new session.
pub open spec fn first_spare(s: ConnectionState, ended: Seq<u32>, addr: u64) -> bool {
    spare(s, ended, addr) && forall|other: u64| #[trigger] spare(s, ended, other) ==> addr <= other
}

/// Local connections, by handles of the caller's choice, and their sessions.
pub struct Connections {
    cons: BTreeMap<u64, ()>,
    convs: BTreeMap<u64, u32>,
    kcps: BTreeMap<u32, u64>,
}

impl View for Connections {
    type V = ConnectionState;

    closed spec fn view(&self) -> ConnectionState {
        ConnectionState { cons: self.cons@.dom(), convs: self.convs@, kcps: self.kcps@ }
    }
}

/// A connection that got a new session.
#[derive(Debug, Clone, Copy, PartialEq, Eq, Structural)]
pub struct Assigned {
    /// The connection that the new session belongs to.
    pub addr: u64,
    /// The session that it had before, which is closed.
    pub replaced: Option<u32>,
}

impl Connections {
    pub open spec fn wf(&self) -> bool {
        matched(self@)
    }

    pub fn new() -> (connections: Connections)
        ensures
            connections.wf(),
            connections@ == (ConnectionState {
                cons: Set::empty(),
                convs: Map::empty(),
                kcps: Map::empty(),
            }),
    {
        let connections = Connections {
            cons: BTreeMap::new(),
            convs: BTreeMap::new(),
            kcps: BTreeMap::new(),
        };
        assert(connections@.cons =~= Set::<u64>::empty());
        connections
    }

    /// A new local connection.
    pub fn insert(&mut self, addr: u64)
        requires
            old(self).wf(),
            !old(self)@.cons.contains(addr),
        ensures
            final(self).wf(),
            final(self)@ == (ConnectionState {
                cons: old(self)@.cons.insert(addr),
                ..old(self)@
            }),
    {
        self.cons.insert(addr, ());
        assert(self@.cons =~= old(self)@.cons.insert(addr));
    }

    /// A local connection is gone.
    pub fn remove(&mut self, addr: u64)
        requires
            old(self).wf(),
            old(self)@.cons.contains(addr),
        ensures
            final(self).wf(),
            final(self)@ == (ConnectionState {
                cons: old(self)@.cons.remove(addr),
                ..old(self)@
            }),
    {
        self.cons.remove(&addr);
        assert(self@.cons =~= old(self)@.cons.remove(addr));
    }

    pub fn contains(&self, addr: u64) -> (yes: bool)
        ensures
            yes == self@.cons.contains(addr),
    {
        self.cons.contains_key(&addr)
    }

    /// Ends the session of a connection, and returns it.
    pub fn close(&mut self, addr: u64) -> (conv: Option<u32>)
        requires
            old(self).wf(),
        ensures
            final(self).wf(),
            final(self)@ == closed(old(self)@, addr),
            conv == if old(self)@.convs.contains_key(addr) {
                Some(old(self)@.convs[addr])
            } else {
                None::<u32>
            },
    {
        match self.convs.remove(&addr) {
            Some(conv) => {
                self.kcps.remove(&conv);
                proof {
                    let s = old(self)@;
                    assert(s.convs.contains_key(addr));
                    assert forall|other: u64| #[trigger] self@.convs.contains_key(other) implies
                        self@.kcps.contains_key(self@.convs[other])
                        && self@.kcps[self@.convs[other]] == other by {
                        assert(s.convs.contains_key(other));
                    }
                    assert forall|other: u32| #[trigger] self@.kcps.contains_key(other) implies
                        self@.convs.contains_key(self@.kcps[other])
                        && self@.convs[self@.kcps[other]] == other by {
                        assert(s.kcps.contains_key(other));
                    }
                }
                Some(conv)
            },
            None => {
                assert(self@.convs =~= old(self)@.convs);
                None
            },
        }
    }

    pub fn get_from_conv(&self, conv: u32) -> (addr: Option<u64>)
        ensures
            addr == if self@.kcps.contains_key(conv) {
                Some(self@.kcps[conv])
            } else {
                None::<u64>
            },
    {
        match self.kcps.get(&conv) {
            Some(addr) => Some(*addr),
            None => None,
        }
    }

    pub fn get_from_addr(&self, addr: u64) -> (conv: Option<u32>)
        ensures
            conv == if self@.convs.contains_key(addr) {
                Some(self@.convs[addr])
            } else {
                None::<u32>
            },
    {
        match self.convs.get(&addr) {
            Some(conv) => Some(*conv),
            None => None,
        }
    }

    /// A session for a connection that has none.
    pub fn assign_from_addr(&mut self, addr: u64, conv: u32)
        requires
            old(self).wf(),
            !old(self)@.convs.contains_key(addr),
            !old(self)@.kcps.contains_key(conv),
        ensures
            final(self).wf(),
            final(self)@ == assigned(old(self)@, addr, conv),
    {
        self.convs.insert(addr, conv);
        self.kcps.insert(conv, addr);
        proof {
            let s = old(self)@;
            assert forall|other: u64| #[trigger] self@.convs.contains_key(other) implies
                self@.kcps.contains_key(self@.convs[other])
                && self@.kcps[self@.convs[other]] == other by {
                if other != addr {
                    assert(s.convs.contains_key(other));
                }
            }
            assert forall|other: u32| #[trigger] self@.kcps.contains_key(other) implies
                self@.convs.contains_key(self@.kcps[other])
                && self@.convs[self@.kcps[other]] == other by {
                if other != conv {
                    assert(s.kcps.contains_key(other));
                }
            }
        }
    }

    /// A connection for a session that the peer has opened: one without a session, or with
    /// one that has ended. `ended` lists the conversations that have.
    pub fn assign_from_conv(&mut self, conv: u32, ended: &Vec<u32>) -> (result: Option<Assigned>)
        requires
            old(self).wf(),
            !old(self)@.kcps.contains_key(conv),
        ensures
            final(self).wf(),
            match result {
                Some(made) => {
                    &&& first_spare(old(self)@, ended@, made.addr)
                    &&& final(self)@ == assigned(closed(old(self)@, made.addr), made.addr, conv)
                    &&& made.replaced == if old(self)@.convs.contains_key(made.addr) {
                        Some(old(self)@.convs[made.addr])
                    } else {
                        None::<u32>
                    }
                },
                None => {
                    &&& forall|addr: u64| !#[trigger] spare(old(self)@, ended@, addr)
                    &&& final(self)@ == old(self)@
                },
            },
    {
        let addr: u64 = match self.find_spare(ended) {
            Some(addr) => addr,
            None => return None,
        };
        let replaced: Option<u32> = self.close(addr);
        self.assign_from_addr(addr, conv);
        Some(Assigned { addr, replaced })
    }

    fn find_spare(&self, ended: &Vec<u32>) -> (found: Option<u64>)
        requires
            self.wf(),
        ensures
            match found {
                Some(addr) => first_spare(self@, ended@, addr),
                None => forall|addr: u64| !#[trigger] spare(self@, ended@, addr),
            },
    {
        let keys: Vec<u64> = ordered::sorted_keys(&self.cons);
        let mut i: usize = 0;
        while i < keys.len()
            invariant
                i <= keys@.len(),
                ordered::is_ascending(keys@, self@.cons),
                forall|j: int| 0 <= j < i ==> !spare(self@, ended@, #[trigger] keys@[j]),
            decreases keys@.len() - i,
        {
            let addr: u64 = keys[i];
            let free: bool = match self.convs.get(&addr) {
                Some(conv) => lists(ended, *conv),
                None => true,
            };
            assert(keys@.contains(addr));
            assert(self@.cons.contains(addr));
            if free {
                assert forall|other: u64| #[trigger] spare(self@, ended@, other) implies addr
                    <= other by {
                    assert(self@.cons.contains(other));
                    assert(keys@.contains(other));
                    let j = choose|j: int| 0 <= j < keys@.len() && keys@[j] == other;
                    assert(!spare(self@, ended@, keys@[j]) || j >= i);
                }
                return Some(addr);
            }
            i = i + 1;
        }
        assert forall|addr: u64| !#[trigger] spare(self@, ended@, addr) by {
            if self@.cons.contains(addr) {
                assert(keys@.contains(addr));
                let j = choose|j: int| 0 <= j < keys@.len() && keys@[j] == addr;
                assert(!spare(self@, ended@, keys@[j]));
            }
        }
        None
    }
}

/// What a read of a local connection came to.
#[derive(Debug, Clone, Copy, PartialEq, Eq, Structural)]
pub enum ReadOutcome {
    End,
    Bytes { len: usize },
    WouldBlock,
    Failed,
}

/// What is done about a read.
#[derive(Debug, Clone, Copy, PartialEq, Eq, Structural)]
pub enum ReadStep {
    /// The connection is gone, and its session is closed.
    Stop { closed: Option<u32> },
    /// The bytes go to this session, which is a new one where `opened` is set.
    Send { conv: u32, opened: bool },
    /// Read again a millisecond later.
    Sleep,
}

/// What a write to a local connection came to.
#[derive(Debug, Clone, Copy, PartialEq, Eq, Structural)]
pub enum WriteOutcome {
    Wrote { len: usize },
    WouldBlock,
    Failed,
}

/// What is done about a write.
#[derive(Debug, Clone, Copy, PartialEq, Eq, Structural)]
pub enum WriteStep {
    /// Everything has been written.
    Done,
    /// The last `rest` bytes are still to be written.
    Again { rest: usize },
    /// Write again a millisecond later.
    Sleep,
    /// The connection is gone, and its session is closed.
    Stop { closed: Option<u32> },
}

/// Where a datagram of the peer goes.
#[derive(Debug, Clone, Copy, PartialEq, Eq, Structural)]
pub enum DatagramStep {
    /// To the session `conv`, that of the connection `addr`.
    Input { conv: u32, addr: u64 },
    /// To a new session under the id `conv`.
    Open { conv: u32, made: Assigned },
    /// No connection has room for a session.
    NoSpare,
}

/// The session of a connection.
pub open spec fn session_of(s: ConnectionState, addr: u64) -> Option<u32> {
    if s.convs.contains_key(addr) {
        Some(s.convs[addr])
    } else {
        None
    }
}

/// The table without a connection and its session.
pub open spec fn dropped(s: ConnectionState, addr: u64) -> ConnectionState {
    ConnectionState { cons: s.cons.remove(addr), ..closed(s, addr) }
}

impl Connections {
    /// A local connection has been read. Where it has ended or failed it leaves the table
    /// with its session; bytes go to its session, and where it has none one is opened under
    /// the id `fresh`.
    pub fn on_read(&mut self, addr: u64, outcome: ReadOutcome, fresh: u32) -> (step: ReadStep)
        requires
            old(self).wf(),
            outcome is End || outcome is Failed ==> old(self)@.cons.contains(addr),
            !old(self)@.kcps.contains_key(fresh),
        ensures
            final(self).wf(),
            match outcome {
                ReadOutcome::End | ReadOutcome::Failed => {
                    &&& step == (ReadStep::Stop { closed: session_of(old(self)@, addr) })
                    &&& final(self)@ == dropped(old(self)@, addr)
                },
                ReadOutcome::Bytes { .. } => match session_of(old(self)@, addr) {
                    Some(conv) => {
                        &&& step == (ReadStep::Send { conv, opened: false })
                        &&& final(self)@ == old(self)@
                    },
                    None => {
                        &&& step == (ReadStep::Send { conv: fresh, opened: true })
                        &&& final(self)@ == assigned(old(self)@, addr, fresh)
                    },
                },
                ReadOutcome::WouldBlock => {
                    &&& step == ReadStep::Sleep
                    &&& final(self)@ == old(self)@
                },
            },
    {
        match outcome {
            ReadOutcome::End | ReadOutcome::Failed => {
                let closed: Option<u32> = self.close(addr);
                self.remove(addr);
                ReadStep::Stop { closed }
            },
            ReadOutcome::Bytes { .. } => match self.get_from_addr(addr) {
                Some(conv) => ReadStep::Send { conv, opened: false },
                None => {
                    self.assign_from_addr(addr, fresh);
                    ReadStep::Send { conv: fresh, opened: true }
                },
            },
            ReadOutcome::WouldBlock => ReadStep::Sleep,
        }
    }

    /// A local connection has been written, with `left` bytes to go.
    pub fn on_write(&mut self, addr: u64, left: usize, outcome: WriteOutcome) -> (step: WriteStep)
        requires
            old(self).wf(),
            old(self)@.cons.contains(addr),
            outcome matches WriteOutcome::Wrote { len } ==> len <= left,
        ensures
            final(self).wf(),
            match outcome {
                WriteOutcome::Wrote { len } => {
                    &&& step == if len == left {
                        WriteStep::Done
                    } else {
                        WriteStep::Again { rest: (left - len) as usize }
                    }
                    &&& final(self)@ == old(self)@
                },
                WriteOutcome::WouldBlock => {
                    &&& step == WriteStep::Sleep
                    &&& final(self)@ == old(self)@
                },
                WriteOutcome::Failed => {
                    &&& step == (WriteStep::Stop { closed: session_of(old(self)@, addr) })
                    &&& final(self)@ == dropped(old(self)@, addr)
                },
            },
    {
        match outcome {
            WriteOutcome::Wrote { len } => {
                if len == left {
                    WriteStep::Done
                } else {
                    WriteStep::Again { rest: left - len }
                }
            },
            WriteOutcome::WouldBlock => WriteStep::Sleep,
            WriteOutcome::Failed => {
                let closed: Option<u32> = self.close(addr);
                self.remove(addr);
                WriteStep::Stop { closed }
            },
        }
    }

    /// A datagram of the peer names a conversation. Where there is no such session one is
    /// opened for a connection with room for it.
    pub fn on_datagram(&mut self, packet: &[u8], ended: &Vec<u32>) -> (step: DatagramStep)
        requires
            old(self).wf(),
            packet@.len() >= session::KCP_OVERHEAD,
        ensures
            final(self).wf(),
            ({
                let named = session::conv_in(packet@);
                if old(self)@.kcps.contains_key(named) {
                    &&& step == (DatagramStep::Input {
                        conv: named,
                        addr: old(self)@.kcps[named],
                    })
                    &&& final(self)@ == old(self)@
                } else {
                    match step {
                        DatagramStep::Open { conv, made } => {
                            &&& conv == named
                            &&& first_spare(old(self)@, ended@, made.addr)
                            &&& made.replaced == session_of(old(self)@, made.addr)
                            &&& final(self)@ == assigned(
                                closed(old(self)@, made.addr),
                                made.addr,
                                conv,
                            )
                        },
                        DatagramStep::NoSpare => {
                            &&& forall|addr: u64| !#[trigger] spare(old(self)@, ended@, addr)
                            &&& final(self)@ == old(self)@
                        },
                        DatagramStep::Input { .. } => false,
                    }
                }
            }),
    {
        let conv: u32 = session::get_conv(packet);
        match self.get_from_conv(conv) {
            Some(addr) => DatagramStep::Input { conv, addr },
            None => match self.assign_from_conv(conv, ended) {
                Some(made) => DatagramStep::Open { conv, made },
                None => DatagramStep::NoSpare,
            },
        }
    }
}

/// A conversation belongs to one connection: what comes in under it goes to the connection
/// whose bytes go out under it.
pub proof fn law_conversations_are_private(s: ConnectionState, a: u64, b: u64)
    requires
        matched(s),
        s.convs.contains_key(a),
        s.convs.contains_key(b),
        s.convs[a] == s.convs[b],
    ensures
        a == b,
        s.kcps[s.convs[a]] == a,
{
}

/// A connection that opens a session and then ends leaves the table as it was before it
/// came.
pub proof fn law_connection_leaves_nothing(s: ConnectionState, addr: u64, conv: u32)
    requires
        matched(s),
        !s.cons.contains(addr),
        !s.convs.contains_key(addr),
        !s.kcps.contains_key(conv),
    ensures
        dropped(
            assigned(ConnectionState { cons: s.cons.insert(addr), ..s }, addr, conv),
            addr,
        ) == s,
{
    let t = dropped(
        assigned(ConnectionState { cons: s.cons.insert(addr), ..s }, addr, conv),
        addr,
    );
    assert(t.cons =~= s.cons);
    assert(t.convs =~= s.convs);
    assert(t.kcps =~= s.kcps);
}

fn lists(ended: &Vec<u32>, conv: u32) -> (yes: bool)
    ensures
        yes == ended@.contains(conv),
{
    let mut i: usize = 0;
    while i < ended.len()
        invariant
            i <= ended@.len(),
            forall|j: int| 0 <= j < i ==> ended@[j] != conv,
        decreases ended@.len() - i,
    {
        if ended[i] == conv {
            return true;
        }
        i = i + 1;
    }
    false
}

} // verus!
