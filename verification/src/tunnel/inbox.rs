//! What a node does with the datagrams of other nodes: it counts them by their source, hands
//! data on, answers requests, and takes responses that are not stale.
use std::collections::BTreeMap;
use vstd::prelude::*;

use crate::tunnel::counter;
use crate::tunnel::counter::{CounterState, TimedCounter};
use crate::tunnel::packet::{RayPacket, RayPacketError, RayPacketType};

verus! {

broadcast use {vstd::std_specs::btree::group_btree_axioms, vstd::laws_cmp::group_laws_cmp};

#[verifier::ext_equal]
pub struct InboxState {
    /// What has come from each source.
    pub counters: Map<u128, CounterState>,
    /// The index of the last response that was taken.
    pub last_index: u64,
}

/// What becomes of a datagram.
#[derive(Debug, Clone, Copy, PartialEq, Eq, Structural)]
pub enum InboxStep {
    /// Data, which is handed on.
    Process,
    /// A request, to be answered with the number of datagrams that its source has sent of
    /// late, where that number fits.
    Respond { count: Option<u32> },
    /// A response, whose index decides.
    Answered,
    /// Its nonce has been seen before.
    Duplicate,
    /// It cannot be opened.
    Invalid,
}

/// The counter of a source, a new one where nothing has come from it.
pub open spec fn counter_of(s: InboxState, source: u128, now: u64) -> CounterState {
    if s.counters.contains_key(source) {
        s.counters[source]
    } else {
        CounterState { buckets: Seq::new(64, |i: int| 0u32), last_update: now }
    }
}

/// The inbox after a datagram of a source has been counted.
pub open spec fn counted(s: InboxState, source: u128, now: u64) -> InboxState {
    InboxState {
        counters: s.counters.insert(source, counter::added(counter_of(s, source, now), now, 1)),
        ..s
    }
}

/// The number that a request is answered with.
pub open spec fn answer(s: InboxState, source: u128, now: u64) -> Option<u32> {
    let total = counter::total(s.counters[source], now, 64);
    if total <= u32::MAX {
        Some(total as u32)
    } else {
        None
    }
}

/// Data and requests are counted.
pub open spec fn is_counted(opened: Result<RayPacket, RayPacketError>) -> bool {
    opened matches Ok(packet) && packet.ptype != RayPacketType::StatResponse
}

/// The inbox after a datagram.
pub open spec fn received(
    s: InboxState,
    source: u128,
    opened: Result<RayPacket, RayPacketError>,
    now: u64,
) -> InboxState {
    if is_counted(opened) {
        counted(s, source, now)
    } else {
        s
    }
}

/// What becomes of a datagram.
pub open spec fn step_of(
    s: InboxState,
    source: u128,
    opened: Result<RayPacket, RayPacketError>,
    now: u64,
) -> InboxStep {
    match opened {
        Ok(packet) => match packet.ptype {
            RayPacketType::DataPacket => InboxStep::Process,
            RayPacketType::StatRequest => InboxStep::Respond {
                count: answer(counted(s, source, now), source, now),
            },
            RayPacketType::StatResponse => InboxStep::Answered,
        },
        Err(RayPacketError::NonceReuseError) => InboxStep::Duplicate,
        Err(_) => InboxStep::Invalid,
    }
}

/// The datagrams that have come in. A source is the address of a node as a number.
pub struct Inbox {
    counters: BTreeMap<u128, TimedCounter>,
    last_index: u64,
}

impl View for Inbox {
    type V = InboxState;

    closed spec fn view(&self) -> InboxState {
        InboxState {
            counters: self.counters@.map_values(|counter: TimedCounter| counter@),
            last_index: self.last_index,
        }
    }
}

impl Inbox {
    pub open spec fn wf(&self) -> bool {
        forall|source: u128| #[trigger]
            self@.counters.contains_key(source) ==> self@.counters[source].buckets.len() == 64
    }

    pub fn new() -> (inbox: Inbox)
        ensures
            inbox.wf(),
            inbox@ == (InboxState { counters: Map::empty(), last_index: 0 }),
    {
        let inbox = Inbox { counters: BTreeMap::new(), last_index: 0 };
        assert(inbox@.counters =~= Map::<u128, CounterState>::empty());
        inbox
    }

    /// Counts a datagram of a source, and says how many have come from it of late.
    fn count(&mut self, source: u128, now: u64) -> (count: Option<u32>)
        requires
            old(self).wf(),
        ensures
            final(self).wf(),
            final(self)@ == counted(old(self)@, source, now),
            count == answer(final(self)@, source, now),
    {
        let ghost before = self@;
        let mut counter: TimedCounter = match self.counters.remove(&source) {
            Some(counter) => {
                assert(before.counters.contains_key(source));
                counter
            },
            None => TimedCounter::new(now),
        };
        assert(counter@ == counter_of(before, source, now));
        counter.inc(now);
        let count: Option<u32> = counter.checked_get(now);
        self.counters.insert(source, counter);
        assert(self@.counters =~= counted(before, source, now).counters);
        assert forall|other: u128| #[trigger] self@.counters.contains_key(other) implies
            self@.counters[other].buckets.len() == 64 by {
            if other != source {
                assert(before.counters.contains_key(other));
            }
        }
        count
    }

    /// Takes a datagram that has been opened, or could not be.
    pub fn receive(
        &mut self,
        source: u128,
        opened: &Result<RayPacket, RayPacketError>,
        now: u64,
    ) -> (step: InboxStep)
        requires
            old(self).wf(),
        ensures
            final(self).wf(),
            final(self)@ == received(old(self)@, source, *opened, now),
            step == step_of(old(self)@, source, *opened, now),
    {
        match opened {
            Ok(packet) => match packet.ptype {
                RayPacketType::DataPacket => {
                    self.count(source, now);
                    InboxStep::Process
                },
                RayPacketType::StatRequest => InboxStep::Respond {
                    count: self.count(source, now),
                },
                RayPacketType::StatResponse => InboxStep::Answered,
            },
            Err(RayPacketError::NonceReuseError) => InboxStep::Duplicate,
            Err(_) => InboxStep::Invalid,
        }
    }

    /// Says whether a response is taken: one that is older than the last one is not.
    pub fn take_response(&mut self, index: u64) -> (taken: bool)
        requires
            old(self).wf(),
        ensures
            final(self).wf(),
            taken == (index >= old(self)@.last_index),
            final(self)@ == if taken {
                (InboxState { last_index: index, ..old(self)@ })
            } else {
                old(self)@
            },
    {
        if index >= self.last_index {
            self.last_index = index;
            true
        } else {
            false
        }
    }
}

/// Sources are counted apart: a datagram changes nothing of what has come from others, nor
/// which responses are stale.
pub proof fn law_sources_are_counted_apart(
    s: InboxState,
    source: u128,
    opened: Result<RayPacket, RayPacketError>,
    now: u64,
    other: u128,
)
    requires
        other != source,
    ensures
        ({
            let next = received(s, source, opened, now);
            &&& next.counters.contains_key(other) == s.counters.contains_key(other)
            &&& next.counters[other] == s.counters[other]
            &&& next.last_index == s.last_index
        }),
{
}

/// A request is itself counted: the number it is answered with is one more than its source
/// had sent before.
pub proof fn law_request_is_counted(s: InboxState, source: u128, now: u64)
    requires
        counter_of(s, source, now).buckets.len() == 64,
        counter::total(counter_of(s, source, now), now, 64) < u32::MAX,
    ensures
        answer(counted(s, source, now), source, now) == Some(
            (counter::total(counter_of(s, source, now), now, 64) + 1) as u32,
        ),
{
    counter::law_events_are_counted(counter_of(s, source, now), now, 1);
}

} // verus!
