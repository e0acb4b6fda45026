//! The bookkeeping of simulated nodes: what their sessions have received, and which writes
//! wait.
use std::collections::BTreeMap;
use vstd::prelude::*;

use crate::machine::ConvId;
use crate::octets;
use crate::ordered;
use crate::sim::link;

verus! {

broadcast use {vstd::std_specs::btree::group_btree_axioms, vstd::laws_cmp::group_laws_cmp};

#[verifier::ext_equal]
pub struct SessionsState {
    pub sessions: Map<ConvId, Seq<u8>>,
    pub blocked: Map<ConvId, Seq<u8>>,
}

/// The sessions of an endpoint.
pub struct NodeSessions {
    sessions: BTreeMap<ConvId, Vec<u8>>,
    blocked_writes: BTreeMap<ConvId, Vec<u8>>,
}

impl View for NodeSessions {
    type V = SessionsState;

    closed spec fn view(&self) -> SessionsState {
        SessionsState {
            sessions: self.sessions@.map_values(|bytes: Vec<u8>| bytes@),
            blocked: self.blocked_writes@.map_values(|bytes: Vec<u8>| bytes@),
        }
    }
}

/// What a session has received.
pub open spec fn received(s: SessionsState, conv_id: ConvId) -> Seq<u8> {
    if s.sessions.contains_key(conv_id) {
        s.sessions[conv_id]
    } else {
        Seq::empty()
    }
}

/// The sessions after one of them is there.
pub open spec fn opened(s: SessionsState, conv_id: ConvId) -> SessionsState {
    SessionsState { sessions: s.sessions.insert(conv_id, received(s, conv_id)), ..s }
}

/// The sessions after one of them has received bytes.
pub open spec fn grown(s: SessionsState, conv_id: ConvId, bytes: Seq<u8>) -> SessionsState {
    SessionsState { sessions: s.sessions.insert(conv_id, received(s, conv_id) + bytes), ..s }
}

/// The sessions after one of them has ended.
pub open spec fn closed(s: SessionsState, conv_id: ConvId) -> SessionsState {
    SessionsState { sessions: s.sessions.remove(conv_id), blocked: s.blocked.remove(conv_id) }
}

impl NodeSessions {
    pub fn new() -> (node: NodeSessions)
        ensures
            node@ == (SessionsState { sessions: Map::empty(), blocked: Map::empty() }),
    {
        let node = NodeSessions { sessions: BTreeMap::new(), blocked_writes: BTreeMap::new() };
        assert(node@.sessions =~= Map::<ConvId, Seq<u8>>::empty());
        assert(node@.blocked =~= Map::<ConvId, Seq<u8>>::empty());
        node
    }

    /// A session is there.
    pub fn open(&mut self, conv_id: ConvId)
        ensures
            final(self)@ == opened(old(self)@, conv_id),
    {
        let bytes: Vec<u8> = match self.sessions.remove(&conv_id) {
            Some(bytes) => bytes,
            None => Vec::new(),
        };
        assert(bytes@ =~= received(old(self)@, conv_id));
        self.sessions.insert(conv_id, bytes);
        assert(self@.sessions =~= old(self)@.sessions.insert(
            conv_id,
            received(old(self)@, conv_id),
        ));
    }

    /// A session has received bytes.
    pub fn receive(&mut self, conv_id: ConvId, bytes: &Vec<u8>)
        ensures
            final(self)@ == grown(old(self)@, conv_id, bytes@),
    {
        let mut all: Vec<u8> = match self.sessions.remove(&conv_id) {
            Some(all) => all,
            None => Vec::new(),
        };
        assert(all@ =~= received(old(self)@, conv_id));
        all.extend_from_slice(bytes.as_slice());
        assert(all@ =~= received(old(self)@, conv_id) + bytes@);
        self.sessions.insert(conv_id, all);
        assert(self@.sessions =~= old(self)@.sessions.insert(
            conv_id,
            received(old(self)@, conv_id) + bytes@,
        ));
    }

    /// A session has ended.
    pub fn close(&mut self, conv_id: ConvId)
        ensures
            final(self)@ == closed(old(self)@, conv_id),
    {
        self.sessions.remove(&conv_id);
        self.blocked_writes.remove(&conv_id);
        assert(self@.sessions =~= old(self)@.sessions.remove(conv_id));
        assert(self@.blocked =~= old(self)@.blocked.remove(conv_id));
    }

    /// A write of a session was blocked, and waits, or was taken.
    pub fn wrote(&mut self, conv_id: ConvId, bytes: Vec<u8>, blocked: bool)
        ensures
            final(self)@ == (SessionsState {
                blocked: if blocked {
                    old(self)@.blocked.insert(conv_id, bytes@)
                } else {
                    old(self)@.blocked.remove(conv_id)
                },
                ..old(self)@
            }),
    {
        if blocked {
            self.blocked_writes.insert(conv_id, bytes);
            assert(self@.blocked =~= old(self)@.blocked.insert(conv_id, bytes@));
        } else {
            self.blocked_writes.remove(&conv_id);
            assert(self@.blocked =~= old(self)@.blocked.remove(conv_id));
        }
        assert(self@.sessions =~= old(self)@.sessions);
    }

    pub fn has_session(&self, conv_id: ConvId) -> (has: bool)
        ensures
            has == self@.sessions.contains_key(conv_id),
    {
        self.sessions.contains_key(&conv_id)
    }

    /// What a session has received.
    pub fn session_bytes(&self, conv_id: ConvId) -> (bytes: Option<&Vec<u8>>)
        ensures
            match bytes {
                Some(bytes) => self@.sessions.contains_key(conv_id) && bytes@
                    == self@.sessions[conv_id],
                None => !self@.sessions.contains_key(conv_id),
            },
    {
        self.sessions.get(&conv_id)
    }

    /// The writes that wait, in the order of their sessions.
    pub fn blocked(&self) -> (writes: Vec<(ConvId, Vec<u8>)>)
        ensures
            ({
                let convs = ordered::ascending(self@.blocked.dom());
                &&& writes@.len() == convs.len()
                &&& forall|i: int|
                    0 <= i < convs.len() ==> (#[trigger] writes@[i]).0 == convs[i] && writes@[i].1@
                        == self@.blocked[convs[i]]
            }),
    {
        let keys: Vec<ConvId> = ordered::sorted_keys(&self.blocked_writes);
        let mut writes: Vec<(ConvId, Vec<u8>)> = Vec::new();
        let mut i: usize = 0;
        assert(self@.blocked.dom() =~= self.blocked_writes@.dom());
        while i < keys.len()
            invariant
                i <= keys@.len(),
                ordered::is_ascending(keys@, self.blocked_writes@.dom()),
                writes@.len() == i,
                forall|j: int|
                    0 <= j < i ==> (#[trigger] writes@[j]).0 == keys@[j] && writes@[j].1@
                        == self@.blocked[keys@[j]],
            decreases keys@.len() - i,
        {
            let conv_id: ConvId = keys[i];
            assert(keys@.contains(conv_id));
            assert(self.blocked_writes@.dom().contains(conv_id));
            if let Some(bytes) = self.blocked_writes.get(&conv_id) {
                let copy: Vec<u8> = octets::copy_range(bytes.as_slice(), 0, bytes.len());
                assert(copy@ =~= bytes@);
                writes.push((conv_id, copy));
            }
            i = i + 1;
        }
        writes
    }
}

/// How long a node has run.
pub fn elapsed(now_ms: u64, started_at_ms: u64) -> (elapsed: u64)
    ensures
        elapsed == if now_ms >= started_at_ms {
            now_ms - started_at_ms
        } else {
            0
        },
{
    now_ms.saturating_sub(started_at_ms)
}

/// The seed as a number.
pub open spec fn seed_value(seed: Seq<u8>) -> nat {
    octets::le_value(seed)
}

/// The next seed: the seed as a number, plus one.
pub fn advance_seed(seed: &mut [u8; 16])
    requires
        exists|i: int| 0 <= i < 16 && #[trigger] old(seed)@[i] != 255,
    ensures
        seed_value(final(seed)@) == seed_value(old(seed)@) + 1,
        final(seed)@ != old(seed)@,
{
    let ghost before = seed@;
    let mut i: usize = 0;
    while i < 16 && seed[i] == 255
        invariant
            i <= 16,
            before == old(seed)@,
            before.len() == 16,
            exists|j: int| 0 <= j < 16 && #[trigger] before[j] != 255,
            forall|j: int| 0 <= j < i ==> #[trigger] before[j] == 255,
            forall|j: int| 0 <= j < i ==> #[trigger] seed@[j] == 0,
            forall|j: int| i <= j < 16 ==> #[trigger] seed@[j] == before[j],
        decreases 16 - i,
    {
        seed[i] = 0;
        i = i + 1;
    }
    let byte: u8 = seed[i];
    let ghost cleared = seed@;
    seed[i] = byte + 1;
    proof {
        assert(seed@ =~= cleared.update(i as int, (byte + 1) as u8));
        assert forall|j: int| 0 <= j < i implies before[j] == 255 && seed@[j] == 0 by {
            assert(before[j] == 255);
            assert(cleared[j] == 0);
        }
        lemma_carry(before, seed@, i as nat);
        assert(seed@[i as int] != before[i as int]);
    }
}

/// Adding one: the trailing 255s become 0, and the next byte grows by one.
proof fn lemma_carry(before: Seq<u8>, after: Seq<u8>, at: nat)
    requires
        before.len() == after.len(),
        at < before.len(),
        before[at as int] < 255,
        after[at as int] == before[at as int] + 1,
        forall|j: int| 0 <= j < at ==> before[j] == 255 && after[j] == 0,
        forall|j: int| at < j < before.len() ==> after[j] == before[j],
    ensures
        octets::le_value(after) == octets::le_value(before) + 1,
    decreases at,
{
    let a = before.drop_first();
    let b = after.drop_first();
    if at == 0 {
        assert(a =~= b);
    } else {
        lemma_carry(a, b, (at - 1) as nat);
    }
}

/// What a node starts with after a restart: the wall clock has gone on while it ran, and the
/// seed is a new one.
pub fn restarted(
    boot_time_ms: u64,
    random_seed: &mut [u8; 16],
    started_at_ms: u64,
    now_ms: u64,
) -> (boot: u64)
    requires
        started_at_ms <= now_ms,
        exists|i: int| 0 <= i < 16 && #[trigger] old(random_seed)@[i] != 255,
    ensures
        boot == link::capped(boot_time_ms + (now_ms - started_at_ms)),
        seed_value(final(random_seed)@) == seed_value(old(random_seed)@) + 1,
        final(random_seed)@ != old(random_seed)@,
{
    advance_seed(random_seed);
    boot_time_ms.saturating_add(now_ms - started_at_ms)
}

/// The wall clock of a node goes on over a restart: its boot time and its elapsed time add
/// up to the same before and after.
pub proof fn law_restart_keeps_the_time(
    boot_time_ms: u64,
    started_at_ms: u64,
    restart_ms: u64,
    now_ms: u64,
)
    requires
        started_at_ms <= restart_ms <= now_ms,
        boot_time_ms + (now_ms - started_at_ms) <= u64::MAX,
    ensures
        link::capped(boot_time_ms + (restart_ms - started_at_ms)) + (now_ms - restart_ms)
            == boot_time_ms + (now_ms - started_at_ms),
{
}

} // verus!
