//! The random bytes of a core: one BLAKE3 output stream per seed.
use vstd::prelude::*;

use crate::crypto;
use crate::octets;

verus! {

/// The key of the stream and how much of it has been used.
#[verifier::ext_equal]
pub struct RandomState {
    pub key: Seq<u8>,
    pub position: u64,
}

/// Where the next `n` bytes start. The stream has 2^64 - 1 bytes; a read beyond its end,
/// which no core lives to see, would start over.
pub open spec fn start(s: RandomState, n: nat) -> int {
    if s.position + n <= u64::MAX {
        s.position as int
    } else {
        0
    }
}

/// The next `n` bytes.
pub open spec fn next_bytes(s: RandomState, n: nat) -> Seq<u8> {
    Seq::new(n, |i: int| crypto::blake3_keyed_stream(s.key, (start(s, n) + i) as u64))
}

/// The state after `n` bytes have been used.
pub open spec fn skip_bytes(s: RandomState, n: nat) -> RandomState {
    RandomState { key: s.key, position: (start(s, n) + n) as u64 }
}

/// The next eight bytes as a number.
pub open spec fn next_u64(s: RandomState) -> u64 {
    octets::le_value(next_bytes(s, 8)) as u64
}

/// The stream of a seed.
pub open spec fn seeded(seed: Seq<u8>) -> RandomState {
    RandomState { key: crypto::blake3_hash(seed), position: 0 }
}

/// The stream of a seed that is for one purpose alone.
pub open spec fn seeded_for(seed: Seq<u8>, domain: Seq<char>) -> RandomState {
    RandomState { key: crypto::blake3_derived(domain, seed), position: 0 }
}

pub struct RandomStream {
    key: [u8; 32],
    position: u64,
}

impl View for RandomStream {
    type V = RandomState;

    closed spec fn view(&self) -> RandomState {
        RandomState { key: self.key@, position: self.position }
    }
}

impl RandomStream {
    pub fn new(seed: [u8; 16]) -> (stream: Self)
        ensures
            stream@ == seeded(seed@),
    {
        let bytes = octets::array16_to_vec(&seed);
        Self { key: crypto::hash(bytes.as_slice()), position: 0 }
    }

    /// A stream for one purpose: streams of the same seed for other purposes have other keys.
    pub fn for_domain(seed: [u8; 16], domain: &str) -> (stream: Self)
        ensures
            stream@ == seeded_for(seed@, domain@),
    {
        let bytes = octets::array16_to_vec(&seed);
        Self { key: crypto::derive_key(domain, bytes.as_slice()), position: 0 }
    }

    /// The next sixteen bytes.
    pub fn nonce(&mut self) -> (nonce: [u8; 16])
        ensures
            nonce@ == next_bytes(old(self)@, 16),
            final(self)@ == skip_bytes(old(self)@, 16),
    {
        let bytes = self.fill(16);
        assert(bytes@.subrange(0, 16) =~= bytes@);
        octets::array16_at(bytes.as_slice(), 0)
    }

    pub fn u64(&mut self) -> (value: u64)
        ensures
            value == next_u64(old(self)@),
            final(self)@ == skip_bytes(old(self)@, 8),
    {
        let bytes = self.fill(8);
        proof {
            octets::lemma_pow256_values();
            assert(bytes@.subrange(0, 8) =~= bytes@);
        }
        octets::get_le(bytes.as_slice(), 0, 8)
    }

    /// The next `len` bytes.
    pub fn fill(&mut self, len: usize) -> (bytes: Vec<u8>)
        ensures
            bytes@ == next_bytes(old(self)@, len as nat),
            final(self)@ == skip_bytes(old(self)@, len as nat),
    {
        if len as u64 > u64::MAX - self.position {
            self.position = 0;
        }
        let bytes = crypto::keyed_stream(&self.key, self.position, len);
        self.position = self.position + len as u64;
        assert(bytes@ =~= next_bytes(old(self)@, len as nat));
        bytes
    }
}

/// Reading twice gives the bytes that one longer read gives: no byte is used twice.
pub proof fn law_stream_is_continuous(s: RandomState, a: nat, b: nat)
    requires
        s.position + a + b <= u64::MAX,
    ensures
        next_bytes(s, a) + next_bytes(skip_bytes(s, a), b) == next_bytes(s, a + b),
        skip_bytes(skip_bytes(s, a), b) == skip_bytes(s, a + b),
{
    assert(next_bytes(s, a) + next_bytes(skip_bytes(s, a), b) =~= next_bytes(s, a + b));
}

} // verus!
