//! Packets on channels, and which sender serves which channel.
use std::collections::BTreeMap;
use vstd::prelude::*;
use vstd::std_specs::cmp::OrdSpec;
use vstd::std_specs::iter::IteratorSpec;

use crate::machine::ChannelId;

verus! {

broadcast use {vstd::std_specs::btree::group_btree_axioms, vstd::laws_cmp::group_laws_cmp};

/// A packet that came in on a channel.
#[derive(Debug, Clone, PartialEq, Eq)]
pub struct InboundTransportPacket {
    pub channel_id: ChannelId,
    pub bytes: Vec<u8>,
}

/// A packet that goes out on a channel.
#[derive(Debug, Clone, PartialEq, Eq)]
pub struct OutboundTransportPacket {
    pub channel_id: ChannelId,
    pub bytes: Vec<u8>,
}

/// No channel is listed twice.
pub open spec fn distinct(ids: Seq<ChannelId>) -> bool {
    forall|i: int, j: int| 0 <= i < j < ids.len() ==> ids[i] != ids[j]
}

/// Whether no channel is listed twice.
pub fn are_distinct(ids: &Vec<ChannelId>) -> (yes: bool)
    ensures
        yes == distinct(ids@),
{
    let mut seen: BTreeMap<ChannelId, ()> = BTreeMap::new();
    let mut i: usize = 0;
    while i < ids.len()
        invariant
            i <= ids@.len(),
            distinct(ids@.take(i as int)),
            forall|id: ChannelId| #[trigger]
                seen@.contains_key(id) <==> ids@.take(i as int).contains(id),
        decreases ids@.len() - i,
    {
        let id: ChannelId = ids[i];
        let ghost some = ids@.take(i as int);
        let ghost more = ids@.take(i + 1);
        if seen.contains_key(&id) {
            proof {
                assert(some.contains(id));
                let j = choose|j: int| 0 <= j < some.len() && some[j] == id;
                assert(ids@[j] == ids@[i as int]);
            }
            return false;
        }
        let ghost held = seen@;
        seen.insert(id, ());
        proof {
            assert(more =~= some.push(id));
            assert forall|a: int, b: int| 0 <= a < b < more.len() implies more[a] != more[b] by {
                assert(more[a] == some[a]);
                if b == i {
                    assert(some.contains(some[a]));
                    assert(held.contains_key(some[a]));
                }
            }
            assert forall|other: ChannelId| #[trigger]
                seen@.contains_key(other) <==> more.contains(other) by {
                assert(held.contains_key(other) <==> some.contains(other));
                if some.contains(other) {
                    let j = choose|j: int| 0 <= j < some.len() && some[j] == other;
                    assert(more[j] == other);
                }
                assert(more[i as int] == id);
                if more.contains(other) && other != id {
                    let j = choose|j: int| 0 <= j < more.len() && more[j] == other;
                    assert(some[j] == other);
                }
            }
        }
        i = i + 1;
    }
    assert(ids@.take(i as int) =~= ids@);
    true
}

/// Which sender, by its place in a list, serves which channel.
pub struct ChannelSenders {
    by_id: BTreeMap<ChannelId, usize>,
}

impl View for ChannelSenders {
    type V = Map<ChannelId, usize>;

    closed spec fn view(&self) -> Map<ChannelId, usize> {
        self.by_id@
    }
}

impl ChannelSenders {
    /// The table for senders that serve these channels.
    pub fn new(ids: &Vec<ChannelId>) -> (senders: ChannelSenders)
        requires
            distinct(ids@),
        ensures
            forall|id: ChannelId| #[trigger] senders@.contains_key(id) <==> ids@.contains(id),
            forall|i: int|
                0 <= i < ids@.len() ==> senders@.contains_key(#[trigger] ids@[i])
                    && senders@[ids@[i]] == i,
    {
        let mut by_id: BTreeMap<ChannelId, usize> = BTreeMap::new();
        let mut i: usize = 0;
        while i < ids.len()
            invariant
                distinct(ids@),
                i <= ids@.len(),
                forall|id: ChannelId| #[trigger]
                    by_id@.contains_key(id) ==> ids@.contains(id),
                forall|j: int|
                    0 <= j < i ==> by_id@.contains_key(#[trigger] ids@[j]) && by_id@[ids@[j]] == j,
            decreases ids@.len() - i,
        {
            by_id.insert(ids[i], i);
            assert(ids@.contains(ids@[i as int]));
            i = i + 1;
        }
        let senders = ChannelSenders { by_id };
        assert forall|id: ChannelId| #[trigger] senders@.contains_key(id) <==> ids@.contains(
            id,
        ) by {
            if ids@.contains(id) {
                let j = choose|j: int| 0 <= j < ids@.len() && ids@[j] == id;
                assert(by_id@.contains_key(ids@[j]));
            }
        }
        senders
    }

    /// The channels, in order.
    pub fn channel_ids(&self) -> (ids: Vec<ChannelId>)
        ensures
            forall|i: int, j: int| 0 <= i < j < ids@.len() ==> ids@[i] < ids@[j],
            forall|id: ChannelId| #[trigger] self@.contains_key(id) <==> ids@.contains(id),
    {
        let mut ids: Vec<ChannelId> = Vec::new();
        let walk = self.by_id.keys();
        let ghost all = walk.remaining();
        for id in iter: walk
            invariant
                iter.seq() == all,
                ids@.len() == iter.index(),
                forall|i: int| 0 <= i < ids@.len() ==> ids@[i] == *all[i],
        {
            ids.push(*id);
        }
        proof {
            let plain = all.unref();
            assert(vstd::laws_cmp::obeys_cmp::<ChannelId>());
            assert(vstd::laws_cmp::obeys_cmp::<&ChannelId>());
            assert(vstd::std_specs::btree::increasing_seq(all));
            assert(ids@ =~= plain);
            assert forall|i: int, j: int| 0 <= i < j < ids@.len() implies ids@[i] < ids@[j] by {
                assert(OrdSpec::cmp_spec(&all[i], &all[j]) is Less);
                assert(OrdSpec::cmp_spec(all[i], all[j]) is Less);
            }
            assert forall|id: ChannelId| #[trigger] self@.contains_key(id) <==> ids@.contains(
                id,
            ) by {
                assert(plain.to_set().contains(id) <==> plain.contains(id));
            }
        }
        ids
    }

    /// The sender for a packet; nothing where no sender serves its channel.
    pub fn sender_for(&self, packet: &OutboundTransportPacket) -> (sender: Option<usize>)
        ensures
            sender == if self@.contains_key(packet.channel_id) {
                Some(self@[packet.channel_id])
            } else {
                None::<usize>
            },
    {
        match self.by_id.get(&packet.channel_id) {
            Some(index) => Some(*index),
            None => None,
        }
    }
}

} // verus!
