//! Replay protection by the nonces of packets.
use vstd::prelude::*;

verus! {

/// A Bloom filter of the `fastbloom` crate that holds nonces.
#[verifier::external_body]
pub struct NonceSet {
    filter: fastbloom::BloomFilter,
}

/// The nonces that have been put into a set.
pub uninterp spec fn nonces_in(set: NonceSet) -> Set<Seq<u8>>;

impl NonceSet {
    /// `fastbloom::BloomFilter::with_num_bits` and `expected_items`: an empty filter of this
    /// size. Not proved here: that it is empty.
    #[verifier::external_body]
    fn with_num_bits(num_bits: usize, expected_items: usize) -> (set: Self)
        requires
            0 < num_bits <= 0x7fff_ffff,
        ensures
            nonces_in(set) == Set::<Seq<u8>>::empty(),
    {
        Self {
            filter: fastbloom::BloomFilter::with_num_bits(num_bits).expected_items(expected_items),
        }
    }

    /// `fastbloom::BloomFilter::contains`. Not proved here: what has been inserted is found,
    /// and nothing is found in an empty filter. Whether anything else is found is left open.
    #[verifier::external_body]
    fn contains(&self, nonce: &[u8; 16]) -> (found: bool)
        ensures
            nonces_in(*self).contains(nonce@) ==> found,
            nonces_in(*self) == Set::<Seq<u8>>::empty() ==> !found,
    {
        self.filter.contains(nonce)
    }

    /// `fastbloom::BloomFilter::insert`. Not proved here: the filter holds this nonce too.
    #[verifier::external_body]
    fn insert(&mut self, nonce: &[u8; 16])
        ensures
            nonces_in(*final(self)) == nonces_in(*old(self)).insert(nonce@),
    {
        self.filter.insert(nonce);
    }

    /// `fastbloom::BloomFilter::clear`. Not proved here: the filter holds nothing any more.
    #[verifier::external_body]
    fn clear(&mut self)
        ensures
            nonces_in(*final(self)) == Set::<Seq<u8>>::empty(),
    {
        self.filter.clear();
    }
}

/// How many packets a core expects in one period.
pub const REPLAY_FILTER_ITEMS: usize = 0x100_0000;

/// The size of a filter that takes one of 100000 fresh nonces for a known one once it holds
/// so many: 2^24 ln(100000) / (ln 2)^2 bits, rounded up to whole bytes.
pub const REPLAY_FILTER_BITS: usize = 402_026_488;

/// How long a period of a core lasts, in milliseconds.
pub const REPLAY_PERIOD_MS: u64 = 65536;

/// What a filter has seen: the nonces of this period and of the one before.
#[verifier::ext_equal]
pub struct NonceState {
    pub current: Set<Seq<u8>>,
    pub previous: Set<Seq<u8>>,
    pub rotate_every_ms: u64,
    pub last_rotate_ms: u64,
}

/// The periods after `time_ms` has come: once a period is over, a new one begins, and the one
/// before the last is forgotten.
pub open spec fn rotated(s: NonceState, time_ms: u64) -> NonceState {
    let passed = if time_ms >= s.last_rotate_ms {
        time_ms - s.last_rotate_ms
    } else {
        0
    };
    if passed >= s.rotate_every_ms {
        NonceState {
            current: Set::empty(),
            previous: s.current,
            last_rotate_ms: time_ms,
            ..s
        }
    } else {
        s
    }
}

/// What becomes of a nonce: one that has been seen is refused, one that is taken is
/// remembered, and where nothing has been seen every nonce is taken.
pub open spec fn checked(s: NonceState, nonce: Seq<u8>, taken: bool, after: NonceState) -> bool {
    &&& taken ==> !s.current.contains(nonce) && !s.previous.contains(nonce)
    &&& s.current == Set::<Seq<u8>>::empty() && s.previous == Set::<Seq<u8>>::empty() ==> taken
    &&& after == if taken {
        NonceState { current: s.current.insert(nonce), ..s }
    } else {
        s
    }
}

/// Nonce replay protection with in-place rotation.
pub struct NonceFilter {
    current: NonceSet,
    previous: NonceSet,
    rotate_every_ms: u64,
    last_rotate_ms: u64,
}

impl View for NonceFilter {
    type V = NonceState;

    closed spec fn view(&self) -> NonceState {
        NonceState {
            current: nonces_in(self.current),
            previous: nonces_in(self.previous),
            rotate_every_ms: self.rotate_every_ms,
            last_rotate_ms: self.last_rotate_ms,
        }
    }
}

impl NonceFilter {
    /// A filter for `size` nonces in each period, with `num_bits` bits for them.
    pub fn new(num_bits: usize, size: usize, rotate_every_ms: u64, time_ms: u64) -> (filter: Self)
        requires
            0 < num_bits <= 0x7fff_ffff,
        ensures
            filter@ == (NonceState {
                current: Set::empty(),
                previous: Set::empty(),
                rotate_every_ms,
                last_rotate_ms: time_ms,
            }),
    {
        NonceFilter {
            current: NonceSet::with_num_bits(num_bits, size),
            previous: NonceSet::with_num_bits(num_bits, size),
            rotate_every_ms,
            last_rotate_ms: time_ms,
        }
    }

    /// Takes a nonce that has not been seen. A nonce of this period or the one before is
    /// refused, and so may be another one, by chance; a filter that has seen nothing takes
    /// every nonce.
    pub fn check_and_set(&mut self, time_ms: u64, nonce: &[u8; 16]) -> (taken: bool)
        ensures
            checked(rotated(old(self)@, time_ms), nonce@, taken, final(self)@),
    {
        self.rotate_if_needed(time_ms);
        self.check(nonce)
    }

    /// Takes a nonce that has not been seen, in the period that is running.
    pub fn check(&mut self, nonce: &[u8; 16]) -> (taken: bool)
        ensures
            checked(old(self)@, nonce@, taken, final(self)@),
    {
        if self.current.contains(nonce) || self.previous.contains(nonce) {
            return false;
        }
        self.current.insert(nonce);
        true
    }

    /// Begins a new period.
    pub fn rotate(&mut self)
        ensures
            final(self)@ == (NonceState {
                current: Set::empty(),
                previous: old(self)@.current,
                ..old(self)@
            }),
    {
        std::mem::swap(&mut self.current, &mut self.previous);
        self.current.clear();
    }

    fn rotate_if_needed(&mut self, time_ms: u64)
        ensures
            final(self)@ == rotated(old(self)@, time_ms),
    {
        if time_ms.saturating_sub(self.last_rotate_ms) >= self.rotate_every_ms {
            self.rotate();
            self.last_rotate_ms = time_ms;
        }
    }
}

/// The filter of a core that starts.
pub fn core_filter() -> (filter: NonceFilter)
    ensures
        filter@ == (NonceState {
            current: Set::empty(),
            previous: Set::empty(),
            rotate_every_ms: REPLAY_PERIOD_MS,
            last_rotate_ms: 0,
        }),
{
    NonceFilter::new(REPLAY_FILTER_BITS, REPLAY_FILTER_ITEMS, REPLAY_PERIOD_MS, 0)
}

/// A check of a nonce at some time, and whether it was taken.
pub struct Check {
    pub time_ms: u64,
    pub nonce: Seq<u8>,
    pub taken: bool,
}

/// The filter goes from each state to the next by one of the checks.
pub open spec fn steps(states: Seq<NonceState>, checks: Seq<Check>) -> bool {
    &&& states.len() == checks.len() + 1
    &&& forall|i: int|
        0 <= i < checks.len() ==> checked(
            rotated(states[i], (#[trigger] checks[i]).time_ms),
            checks[i].nonce,
            checks[i].taken,
            states[i + 1],
        )
}

/// The checks come before the end of the period after the one that runs in `s`.
pub open spec fn within_two_periods(s: NonceState, checks: Seq<Check>) -> bool {
    forall|i: int|
        0 <= i < checks.len() ==> (#[trigger] checks[i]).time_ms < s.last_rotate_ms + 2
            * s.rotate_every_ms
}

/// A nonce that has been taken is refused for the rest of its period and for a whole period
/// after it, whatever else is checked meanwhile.
pub proof fn law_no_nonce_is_taken_twice(
    states: Seq<NonceState>,
    checks: Seq<Check>,
    nonce: Seq<u8>,
    n: int,
)
    requires
        steps(states, checks),
        within_two_periods(states[0], checks),
        states[0].rotate_every_ms > 0,
        states[0].current.contains(nonce),
        0 <= n < checks.len(),
        checks[n].nonce == nonce,
    ensures
        !checks[n].taken,
{
    lemma_known(states, checks, nonce, n);
}

proof fn lemma_known(states: Seq<NonceState>, checks: Seq<Check>, nonce: Seq<u8>, n: int)
    requires
        steps(states, checks),
        within_two_periods(states[0], checks),
        states[0].rotate_every_ms > 0,
        states[0].current.contains(nonce),
        0 <= n < states.len(),
    ensures
        states[n].rotate_every_ms == states[0].rotate_every_ms,
        states[n].current.contains(nonce) && states[n].last_rotate_ms == states[0].last_rotate_ms
            || states[n].previous.contains(nonce) && states[n].last_rotate_ms
            >= states[0].last_rotate_ms + states[0].rotate_every_ms,
    decreases n,
{
    if n > 0 {
        lemma_known(states, checks, nonce, n - 1);
        let check = checks[n - 1];
        assert(checked(
            rotated(states[n - 1], check.time_ms),
            check.nonce,
            check.taken,
            states[n],
        ));
    }
}

} // verus!
