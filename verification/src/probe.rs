//! Reverse UDP: a receiver behind a firewall opens the path with probes, which the sender
//! answers.
use std::collections::BTreeMap;
use vstd::prelude::*;

use crate::crypto;
use crate::entropy;
use crate::octets;
use crate::ordered;

verus! {

broadcast use {vstd::std_specs::btree::group_btree_axioms, vstd::laws_cmp::group_laws_cmp};

/// How often a receiver probes, in milliseconds.
pub const PROBE_INTERVAL_MS: u64 = 15000;

/// For how long a sender remembers a receiver, in milliseconds.
pub const PEER_TIMEOUT_MS: u64 = 60000;

/// The context in which the key of probes is derived.
pub const CHALLENGE_CONTEXT: &'static str = "RayNet reverse UDP challenge key v1";

/// The key of probes and responses.
pub open spec fn challenge_key_of(channel_key: Seq<u8>) -> Seq<u8> {
    crypto::blake3_derived(CHALLENGE_CONTEXT@, channel_key)
}

pub fn challenge_key(channel_key: &[u8; 32]) -> (key: [u8; 32])
    ensures
        key@ == challenge_key_of(channel_key@),
{
    crypto::derive_key(CHALLENGE_CONTEXT, channel_key.as_slice())
}

/// The tag of bytes in a domain.
pub open spec fn tag_of(key: Seq<u8>, domain: u8, bytes: Seq<u8>) -> Seq<u8> {
    crypto::blake3_keyed(key, seq![domain] + bytes).take(16)
}

/// A probe: a nonce and its tag.
pub open spec fn is_probe(key: Seq<u8>, probe: Seq<u8>) -> bool {
    probe.len() == 32 && probe.skip(16) == tag_of(key, 0, probe.take(16))
}

/// A response to a challenge: a nonce, and the tag of both.
pub open spec fn is_response(key: Seq<u8>, challenge: Seq<u8>, response: Seq<u8>) -> bool {
    response.len() == 32 && response.skip(16) == tag_of(key, 1, challenge + response.take(16))
}

fn tag(key: &[u8; 32], domain: u8, bytes: &[u8]) -> (tag: [u8; 16])
    ensures
        tag@ == tag_of(key@, domain, bytes@),
{
    let mut input: Vec<u8> = Vec::with_capacity(1);
    input.push(domain);
    input.extend_from_slice(bytes);
    assert(input@ =~= seq![domain] + bytes@);
    octets::first16(&crypto::keyed_hash(key, input.as_slice()))
}

/// The probe with this nonce.
pub fn probe_with(key: &[u8; 32], nonce: &[u8; 16]) -> (probe: Vec<u8>)
    ensures
        is_probe(key@, probe@),
        probe@.take(16) == nonce@,
{
    let mut probe: Vec<u8> = octets::array16_to_vec(nonce);
    let tag: [u8; 16] = tag(key, 0, nonce.as_slice());
    probe.extend_from_slice(tag.as_slice());
    assert(probe@.take(16) =~= nonce@);
    assert(probe@.skip(16) =~= tag@);
    probe
}

/// A probe with a nonce that the machine has chosen at random.
pub fn make_probe(key: &[u8; 32]) -> (probe: Vec<u8>)
    ensures
        is_probe(key@, probe@),
{
    let nonce: [u8; 16] = entropy::random16();
    probe_with(key, &nonce)
}

pub fn valid_probe(probe: &[u8], key: &[u8; 32]) -> (valid: bool)
    ensures
        valid == is_probe(key@, probe@),
{
    if probe.len() != 32 {
        return false;
    }
    let nonce: [u8; 16] = octets::array16_at(probe, 0);
    let tag: [u8; 16] = tag(key, 0, nonce.as_slice());
    assert(probe@.take(16) =~= nonce@);
    same_tail(probe, &tag)
}

/// The response to a challenge with this nonce.
pub fn response_with(key: &[u8; 32], challenge: &[u8], nonce: &[u8; 16]) -> (response: Vec<u8>)
    requires
        challenge@.len() == 16,
    ensures
        is_response(key@, challenge@, response@),
        response@.take(16) == nonce@,
{
    let mut authenticated: Vec<u8> = octets::copy_range(challenge, 0, 16);
    authenticated.extend_from_slice(nonce.as_slice());
    assert(authenticated@ =~= challenge@ + nonce@);
    let mut response: Vec<u8> = octets::array16_to_vec(nonce);
    let tag: [u8; 16] = tag(key, 1, authenticated.as_slice());
    response.extend_from_slice(tag.as_slice());
    assert(response@.take(16) =~= nonce@);
    assert(response@.skip(16) =~= tag@);
    response
}

/// A response to a challenge with a nonce that the machine has chosen at random.
pub fn make_response(key: &[u8; 32], challenge: &[u8]) -> (response: Vec<u8>)
    requires
        challenge@.len() == 16,
    ensures
        is_response(key@, challenge@, response@),
{
    let nonce: [u8; 16] = entropy::random16();
    response_with(key, challenge, &nonce)
}

pub fn valid_response(response: &[u8], key: &[u8; 32], challenge: &[u8; 16]) -> (valid: bool)
    ensures
        valid == is_response(key@, challenge@, response@),
{
    if response.len() != 32 {
        return false;
    }
    let mut authenticated: Vec<u8> = octets::array16_to_vec(challenge);
    let nonce: [u8; 16] = octets::array16_at(response, 0);
    authenticated.extend_from_slice(nonce.as_slice());
    assert(response@.take(16) =~= nonce@);
    assert(authenticated@ =~= challenge@ + response@.take(16));
    let tag: [u8; 16] = tag(key, 1, authenticated.as_slice());
    same_tail(response, &tag)
}

/// The last 16 of 32 bytes are these.
fn same_tail(bytes: &[u8], tail: &[u8; 16]) -> (same: bool)
    requires
        bytes@.len() == 32,
    ensures
        same == (bytes@.skip(16) == tail@),
{
    let mut i: usize = 0;
    while i < 16
        invariant
            i <= 16,
            bytes@.len() == 32,
            forall|j: int| 0 <= j < i ==> bytes@[16 + j] == tail@[j],
        decreases 16 - i,
    {
        if bytes[16 + i] != tail[i] {
            assert(bytes@.skip(16)[i as int] != tail@[i as int]);
            return false;
        }
        i = i + 1;
    }
    assert(bytes@.skip(16) =~= tail@);
    true
}

// ---------------------------------------------------------------------------
// The sender
// ---------------------------------------------------------------------------

/// The receivers that have probed, by handles of the caller's choice, and when they did.
pub struct Peers {
    seen: BTreeMap<u64, u64>,
}

impl View for Peers {
    type V = Map<u64, u64>;

    closed spec fn view(&self) -> Map<u64, u64> {
        self.seen@
    }
}

/// The receiver has probed less than a minute ago.
pub open spec fn recent(seen: Map<u64, u64>, now_ms: u64, peer: u64) -> bool {
    seen.contains_key(peer) && now_ms - seen[peer] < PEER_TIMEOUT_MS
}

/// The receivers that have probed less than a minute ago.
pub open spec fn fresh(seen: Map<u64, u64>, now_ms: u64) -> Map<u64, u64> {
    seen.restrict(Set::new(|peer: u64| recent(seen, now_ms, peer)))
}

impl Peers {
    pub fn new() -> (peers: Peers)
        ensures
            peers@ == Map::<u64, u64>::empty(),
    {
        Peers { seen: BTreeMap::new() }
    }

    /// The response to a datagram, if it is a probe.
    pub fn answer(key: &[u8; 32], datagram: &[u8]) -> (response: Option<Vec<u8>>)
        ensures
            match response {
                Some(response) => is_probe(key@, datagram@) && is_response(
                    key@,
                    datagram@.take(16),
                    response@,
                ),
                None => !is_probe(key@, datagram@),
            },
    {
        if !valid_probe(datagram, key) {
            return None;
        }
        let challenge: [u8; 16] = octets::array16_at(datagram, 0);
        assert(challenge@ =~= datagram@.take(16));
        Some(make_response(key, challenge.as_slice()))
    }

    /// A response has been sent to a receiver.
    pub fn answered(&mut self, peer: u64, now_ms: u64)
        ensures
            final(self)@ == old(self)@.insert(peer, now_ms),
    {
        self.seen.insert(peer, now_ms);
    }

    /// Forgets the receivers that have not probed for a minute, and says which are left.
    pub fn paths(&mut self, now_ms: u64) -> (peers: Vec<u64>)
        ensures
            final(self)@ == fresh(old(self)@, now_ms),
            peers@ == ordered::ascending(final(self)@.dom()),
            ordered::is_ascending(peers@, final(self)@.dom()),
    {
        let keys: Vec<u64> = ordered::sorted_keys(&self.seen);
        let ghost before = self@;
        let mut i: usize = 0;
        while i < keys.len()
            invariant
                i <= keys@.len(),
                before == old(self)@,
                ordered::is_ascending(keys@, before.dom()),
                forall|peer: u64| #[trigger]
                    self@.contains_key(peer) ==> before.contains_key(peer) && self@[peer]
                        == before[peer],
                forall|j: int|
                    0 <= j < i ==> (self@.contains_key(#[trigger] keys@[j]) <==> recent(
                        before,
                        now_ms,
                        keys@[j],
                    )),
                forall|j: int| i <= j < keys@.len() ==> self@.contains_key(#[trigger] keys@[j]),
            decreases keys@.len() - i,
        {
            let peer: u64 = keys[i];
            assert(keys@.contains(peer));
            assert(before.dom().contains(peer));
            assert(self@.contains_key(peer));
            let ghost held = self@;
            if let Some(seen) = self.seen.get(&peer) {
                if now_ms >= *seen && now_ms - *seen >= PEER_TIMEOUT_MS {
                    self.seen.remove(&peer);
                    assert(self@ == held.remove(peer));
                }
            }
            i = i + 1;
        }
        proof {
            assert forall|peer: u64| self@.contains_key(peer) <==> recent(
                before,
                now_ms,
                peer,
            ) by {
                if before.contains_key(peer) {
                    assert(before.dom().contains(peer));
                    assert(keys@.contains(peer));
                    let j = choose|j: int| 0 <= j < keys@.len() && keys@[j] == peer;
                    assert(self@.contains_key(keys@[j]) <==> recent(before, now_ms, keys@[j]));
                }
            }
            assert(self@ =~= fresh(before, now_ms));
        }
        ordered::sorted_keys(&self.seen)
    }
}

/// A datagram is lost only where no receiver has probed for a minute, and never goes to one
/// that has not.
pub proof fn law_paths_are_recent(seen: Map<u64, u64>, now_ms: u64, peer: u64)
    ensures
        fresh(seen, now_ms).contains_key(peer) <==> recent(seen, now_ms, peer),
{
}

// ---------------------------------------------------------------------------
// The receiver
// ---------------------------------------------------------------------------

/// The challenges that wait for a response, by the handle of the sender.
pub struct Challenges {
    nonces: BTreeMap<u64, [u8; 16]>,
}

impl View for Challenges {
    type V = Map<u64, [u8; 16]>;

    closed spec fn view(&self) -> Map<u64, [u8; 16]> {
        self.nonces@
    }
}

impl Challenges {
    pub fn new() -> (challenges: Challenges)
        ensures
            challenges@ == Map::<u64, [u8; 16]>::empty(),
    {
        Challenges { nonces: BTreeMap::new() }
    }

    /// A probe for a sender. Its nonce is the challenge that a response has to answer.
    pub fn probe(&mut self, key: &[u8; 32], sender: u64) -> (probe: Vec<u8>)
        ensures
            is_probe(key@, probe@),
            exists|nonce: [u8; 16]|
                #![trigger old(self)@.insert(sender, nonce)]
                nonce@ == probe@.take(16) && final(self)@ == old(self)@.insert(sender, nonce),
    {
        let probe: Vec<u8> = make_probe(key);
        let nonce: [u8; 16] = octets::array16_at(probe.as_slice(), 0);
        assert(nonce@ =~= probe@.take(16));
        self.nonces.insert(sender, nonce);
        assert(self@ == old(self)@.insert(sender, nonce));
        probe
    }

    /// Says whether a datagram is a packet for the node. A response to the challenge of its
    /// sender is not, and settles the challenge.
    pub fn take(&mut self, key: &[u8; 32], sender: u64, datagram: &[u8]) -> (packet: bool)
        ensures
            packet == !(old(self)@.contains_key(sender) && is_response(
                key@,
                old(self)@[sender]@,
                datagram@,
            )),
            final(self)@ == if packet {
                old(self)@
            } else {
                old(self)@.remove(sender)
            },
    {
        let answered: bool = match self.nonces.get(&sender) {
            Some(nonce) => valid_response(datagram, key, nonce),
            None => false,
        };
        if answered {
            self.nonces.remove(&sender);
        }
        !answered
    }
}

/// What makes a probe and a response: 32 bytes, of which the last 16 are the start of the
/// keyed hash of a zero and the first 16, or of a one, the challenge and the first 16.
pub proof fn law_tags_are_keyed(key: Seq<u8>, challenge: Seq<u8>, datagram: Seq<u8>)
    requires
        datagram.len() == 32,
        challenge.len() == 16,
    ensures
        is_probe(key, datagram) <==> datagram.subrange(16, 32) == crypto::blake3_keyed(
            key,
            seq![0u8] + datagram.subrange(0, 16),
        ).take(16),
        is_response(key, challenge, datagram) <==> datagram.subrange(16, 32)
            == crypto::blake3_keyed(
            key,
            seq![1u8] + challenge + datagram.subrange(0, 16),
        ).take(16),
{
    assert(datagram.skip(16) =~= datagram.subrange(16, 32));
    assert(datagram.take(16) =~= datagram.subrange(0, 16));
    assert(seq![1u8] + (challenge + datagram.take(16)) =~= seq![1u8] + challenge
        + datagram.subrange(0, 16));
}

/// A receiver is kept for a minute after its last probe.
pub proof fn law_receiver_is_kept_for_a_minute(
    seen: Map<u64, u64>,
    peer: u64,
    at_ms: u64,
    now_ms: u64,
)
    ensures
        fresh(seen.insert(peer, at_ms), now_ms).contains_key(peer) <==> now_ms < at_ms + 60000,
        forall|other: u64|
            #![trigger fresh(seen, now_ms).contains_key(other)]
            fresh(seen, now_ms).contains_key(other) ==> fresh(seen, now_ms)[other] == seen[other],
{
}

} // verus!
