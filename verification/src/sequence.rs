//! Freshness and replay protection: one sliding window of packet numbers per sender.
use std::collections::BTreeMap;

use vstd::prelude::*;

use crate::ordered;

verus! {

broadcast use {vstd::std_specs::btree::group_btree_axioms, vstd::laws_cmp::group_laws_cmp};

/// Milliseconds per tick, as a shift.
pub const TS_SHIFT: u32 = 10;

pub const TIME_BITS: u32 = 26;

pub const TIME_MASK: u32 = 0x3ff_ffff;

pub const MAX_PAST_TICKS: i32 = 645;

pub const MAX_FUTURE_TICKS: i32 = 59;

pub const WINDOW_BITS: u32 = 0x10_0000;

pub const WINDOW_WORDS: usize = 0x4000;

#[derive(Debug, Clone, Copy, PartialEq, Eq, Structural)]
pub enum SequenceDrop {
    Freshness,
    Replay,
}

/// `later - earlier` as a signed distance on the circle of 26 bit ticks.
pub open spec fn tick_distance(later: u32, earlier: u32) -> int {
    let difference = (later - earlier) % 0x400_0000;
    if difference >= 0x200_0000 {
        difference - 0x400_0000
    } else {
        difference
    }
}

pub fn time_diff(later: u32, earlier: u32) -> (difference: i32)
    ensures
        difference == tick_distance(later, earlier),
        -0x200_0000 <= difference < 0x200_0000,
{
    let wrapped: u32 = later.wrapping_sub(earlier);
    let difference: u32 = wrapped & TIME_MASK;
    assert(wrapped & 0x3ff_ffff == wrapped % 0x400_0000) by (bit_vector);
    if difference >= 0x200_0000 {
        difference as i32 - 0x400_0000
    } else {
        difference as i32
    }
}

/// The packet numbers of one sender that have been seen, as far back as the window
/// reaches.
#[verifier::ext_equal]
pub struct WindowState {
    pub max_seq_no: u64,
    pub newest_time: u32,
    pub seen: Set<u64>,
}

/// `seq_no` lies in the window that ends at `max_seq_no`.
pub open spec fn in_window(max_seq_no: u64, seq_no: u64) -> bool {
    seq_no <= max_seq_no && max_seq_no - seq_no < WINDOW_BITS
}

/// A packet number is taken if it is newer than all others, or lies in the window and
/// has not been seen.
pub open spec fn accepts(w: WindowState, seq_no: u64) -> bool {
    seq_no > w.max_seq_no || (in_window(w.max_seq_no, seq_no) && !w.seen.contains(seq_no))
}

/// The later of two ticks.
pub open spec fn later_time(a: u32, b: u32) -> u32 {
    if tick_distance(b, a) > 0 {
        b
    } else {
        a
    }
}

/// The window after an accepted packet.
pub open spec fn inserted(w: WindowState, seq_no: u64, time: u32) -> WindowState {
    let max_seq_no = if seq_no > w.max_seq_no {
        seq_no
    } else {
        w.max_seq_no
    };
    WindowState {
        max_seq_no,
        newest_time: later_time(w.newest_time, time),
        seen: Set::new(
            |n: u64| (n == seq_no || w.seen.contains(n)) && in_window(max_seq_no, n),
        ),
    }
}

/// The window of a sender after its first packet.
pub open spec fn first_window(seq_no: u64, time: u32) -> WindowState {
    WindowState { max_seq_no: seq_no, newest_time: time, seen: set![seq_no] }
}

/// Bit `k` of the bitmap.
pub open spec fn bit_at(bitmap: Seq<u64>, k: int) -> bool {
    bitmap[k / 64] & (1u64 << ((k % 64) as u64)) != 0
}

proof fn lemma_set_bit(w: u64, b: u64, c: u64)
    by (bit_vector)
    requires
        b < 64,
        c < 64,
    ensures
        (w | (1u64 << b)) & (1u64 << c) != 0 <==> b == c || w & (1u64 << c) != 0,
{
}

proof fn lemma_clear_bit(w: u64, b: u64, c: u64)
    by (bit_vector)
    requires
        b < 64,
        c < 64,
    ensures
        (w & !(1u64 << b)) & (1u64 << c) != 0 <==> b != c && w & (1u64 << c) != 0,
{
}

proof fn lemma_zero_word(c: u64)
    by (bit_vector)
    requires
        c < 64,
    ensures
        0u64 & (1u64 << c) == 0,
{
}

/// How far `k` lies behind `from` on the circle of bitmap positions.
pub open spec fn ring(k: int, from: int) -> int {
    (k - from) % 0x10_0000
}

pub struct SequenceWindow {
    max_seq_no: u64,
    newest_time: u32,
    bitmap: Vec<u64>,
}

impl View for SequenceWindow {
    type V = WindowState;

    closed spec fn view(&self) -> WindowState {
        WindowState {
            max_seq_no: self.max_seq_no,
            newest_time: self.newest_time,
            seen: Set::new(
                |n: u64|
                    in_window(self.max_seq_no, n) && bit_at(
                        self.bitmap@,
                        n as int % WINDOW_BITS as int,
                    ),
            ),
        }
    }
}

impl SequenceWindow {
    pub closed spec fn wf(&self) -> bool {
        self.bitmap@.len() == WINDOW_WORDS
    }

    /// The window of a sender whose first packet has come.
    pub fn new(seq_no: u64, time: u32) -> (window: Self)
        ensures
            window.wf(),
            window@ == first_window(seq_no, time),
    {
        let mut bitmap: Vec<u64> = Vec::with_capacity(WINDOW_WORDS);
        while bitmap.len() < WINDOW_WORDS
            invariant
                bitmap@.len() <= WINDOW_WORDS,
                forall|i: int| 0 <= i < bitmap@.len() ==> bitmap@[i] == 0,
            decreases WINDOW_WORDS - bitmap@.len(),
        {
            bitmap.push(0);
        }
        let mut window = Self { max_seq_no: seq_no, newest_time: time, bitmap };
        assert forall|k: int| 0 <= k < WINDOW_BITS implies !bit_at(window.bitmap@, k) by {
            lemma_zero_word((k % 64) as u64);
        }
        window.set(seq_no);
        assert(window@.seen =~= set![seq_no]);
        window
    }

    /// Takes the number of a packet, or refuses it as a replay and changes nothing.
    pub fn insert(&mut self, seq_no: u64, time: u32) -> (result: Result<(), SequenceDrop>)
        requires
            old(self).wf(),
        ensures
            final(self).wf(),
            result == (if accepts(old(self)@, seq_no) {
                Ok::<(), SequenceDrop>(())
            } else {
                Err::<(), SequenceDrop>(SequenceDrop::Replay)
            }),
            result is Err ==> final(self)@ == old(self)@,
            result is Ok ==> final(self)@ == inserted(old(self)@, seq_no, time),
    {
        let ghost before = *self;
        if seq_no <= self.max_seq_no {
            if self.max_seq_no - seq_no >= WINDOW_BITS as u64 {
                return Err(SequenceDrop::Replay);
            }
            if self.is_set(seq_no) {
                return Err(SequenceDrop::Replay);
            }
            self.set(seq_no);
        } else {
            let delta: u64 = seq_no - self.max_seq_no;
            if delta >= WINDOW_BITS as u64 {
                self.clear_all();
            } else {
                self.clear_after(self.max_seq_no, delta as u32);
            }
            self.max_seq_no = seq_no;
            self.set(seq_no);
        }
        if time_diff(time, self.newest_time) > 0 {
            self.newest_time = time;
        }
        assert(self@.seen =~= inserted(before@, seq_no, time).seen);
        Ok(())
    }

    fn clear_all(&mut self)
        requires
            old(self).wf(),
        ensures
            final(self).wf(),
            final(self).max_seq_no == old(self).max_seq_no,
            final(self).newest_time == old(self).newest_time,
            forall|k: int| 0 <= k < WINDOW_BITS ==> !bit_at(final(self).bitmap@, k),
    {
        let mut i: usize = 0;
        while i < WINDOW_WORDS
            invariant
                self.wf(),
                self.max_seq_no == old(self).max_seq_no,
                self.newest_time == old(self).newest_time,
                i <= WINDOW_WORDS,
                forall|j: int| 0 <= j < i ==> self.bitmap@[j] == 0,
            decreases WINDOW_WORDS - i,
        {
            self.bitmap[i] = 0;
            i = i + 1;
        }
        assert forall|k: int| 0 <= k < WINDOW_BITS implies !bit_at(self.bitmap@, k) by {
            lemma_zero_word((k % 64) as u64);
        }
    }

    /// Clears the bits of the `count` packet numbers that follow `old_max`.
    fn clear_after(&mut self, old_max: u64, count: u32)
        requires
            old(self).wf(),
            count < WINDOW_BITS,
            old_max + count <= u64::MAX,
        ensures
            final(self).wf(),
            final(self).max_seq_no == old(self).max_seq_no,
            final(self).newest_time == old(self).newest_time,
            forall|k: int|
                0 <= k < WINDOW_BITS ==> (#[trigger] bit_at(final(self).bitmap@, k) <==> bit_at(
                    old(self).bitmap@,
                    k,
                ) && !(ring(k, old_max + 1) < count)),
    {
        let start: u32 = (old_max.wrapping_add(1) % 0x10_0000) as u32;
        let mut bit: u32 = start;
        let mut remaining: u32 = count;
        let ghost before = self.bitmap@;
        while remaining != 0 && bit % 64 != 0
            invariant
                self.wf(),
                self.max_seq_no == old(self).max_seq_no,
                self.newest_time == old(self).newest_time,
                remaining <= count < WINDOW_BITS,
                start < WINDOW_BITS,
                bit == (start + (count - remaining)) % 0x10_0000,
                forall|k: int|
                    0 <= k < WINDOW_BITS ==> (#[trigger] bit_at(self.bitmap@, k) <==> bit_at(
                        before,
                        k,
                    ) && !(ring(k, start as int) < count - remaining)),
            decreases remaining,
        {
            self.clear_bit(bit);
            bit = (bit + 1) % 0x10_0000;
            remaining = remaining - 1;
        }
        while remaining >= 64
            invariant
                self.wf(),
                self.max_seq_no == old(self).max_seq_no,
                self.newest_time == old(self).newest_time,
                remaining <= count < WINDOW_BITS,
                start < WINDOW_BITS,
                bit == (start + (count - remaining)) % 0x10_0000,
                remaining != 0 ==> bit % 64 == 0,
                forall|k: int|
                    0 <= k < WINDOW_BITS ==> (#[trigger] bit_at(self.bitmap@, k) <==> bit_at(
                        before,
                        k,
                    ) && !(ring(k, start as int) < count - remaining)),
            decreases remaining,
        {
            let ghost previous = self.bitmap@;
            let word: usize = (bit / 64) as usize;
            self.bitmap[word] = 0;
            proof {
                assert forall|k: int| 0 <= k < WINDOW_BITS implies (#[trigger] bit_at(
                    self.bitmap@,
                    k,
                ) <==> bit_at(previous, k) && !(bit <= k < bit + 64)) by {
                    lemma_zero_word((k % 64) as u64);
                }
                assert forall|k: int| 0 <= k < WINDOW_BITS implies (#[trigger] ring(
                    k,
                    start as int,
                ) < count - remaining + 64 <==> ring(k, start as int) < count - remaining || bit
                    <= k < bit + 64) by {
                    lemma_span(k, start as int, (count - remaining) as int, bit as int, 64);
                }
            }
            bit = (bit + 64) % 0x10_0000;
            remaining = remaining - 64;
        }
        while remaining != 0
            invariant
                self.wf(),
                self.max_seq_no == old(self).max_seq_no,
                self.newest_time == old(self).newest_time,
                remaining <= count < WINDOW_BITS,
                start < WINDOW_BITS,
                bit == (start + (count - remaining)) % 0x10_0000,
                forall|k: int|
                    0 <= k < WINDOW_BITS ==> (#[trigger] bit_at(self.bitmap@, k) <==> bit_at(
                        before,
                        k,
                    ) && !(ring(k, start as int) < count - remaining)),
            decreases remaining,
        {
            self.clear_bit(bit);
            bit = (bit + 1) % 0x10_0000;
            remaining = remaining - 1;
        }
        assert forall|k: int| 0 <= k < WINDOW_BITS implies (#[trigger] bit_at(self.bitmap@, k)
            <==> bit_at(before, k) && !(ring(k, old_max + 1) < count)) by {
            assert(ring(k, old_max + 1) == ring(k, start as int));
        }
    }

    fn clear_bit(&mut self, bit: u32)
        requires
            old(self).wf(),
            bit < WINDOW_BITS,
        ensures
            final(self).wf(),
            final(self).max_seq_no == old(self).max_seq_no,
            final(self).newest_time == old(self).newest_time,
            forall|k: int|
                0 <= k < WINDOW_BITS ==> (#[trigger] bit_at(final(self).bitmap@, k) <==> k != bit
                    && bit_at(old(self).bitmap@, k)),
    {
        let word: usize = (bit / 64) as usize;
        let shift: u64 = (bit % 64) as u64;
        let ghost before = self.bitmap@;
        self.bitmap[word] = self.bitmap[word] & !(1u64 << shift);
        assert forall|k: int| 0 <= k < WINDOW_BITS implies (#[trigger] bit_at(self.bitmap@, k)
            <==> k != bit && bit_at(before, k)) by {
            lemma_clear_bit(before[word as int], shift, (k % 64) as u64);
        }
    }

    fn is_set(&self, seq_no: u64) -> (set: bool)
        requires
            self.wf(),
        ensures
            set == bit_at(self.bitmap@, seq_no as int % WINDOW_BITS as int),
    {
        let bit: u64 = seq_no % 0x10_0000;
        self.bitmap[(bit / 64) as usize] & (1u64 << (bit % 64)) != 0
    }

    fn set(&mut self, seq_no: u64)
        requires
            old(self).wf(),
        ensures
            final(self).wf(),
            final(self).max_seq_no == old(self).max_seq_no,
            final(self).newest_time == old(self).newest_time,
            forall|k: int|
                0 <= k < WINDOW_BITS ==> (#[trigger] bit_at(final(self).bitmap@, k) <==> k
                    == seq_no as int % WINDOW_BITS as int || bit_at(old(self).bitmap@, k)),
    {
        let bit: u64 = seq_no % 0x10_0000;
        let word: usize = (bit / 64) as usize;
        let shift: u64 = bit % 64;
        let ghost before = self.bitmap@;
        self.bitmap[word] = self.bitmap[word] | (1u64 << shift);
        assert forall|k: int| 0 <= k < WINDOW_BITS implies (#[trigger] bit_at(self.bitmap@, k)
            <==> k == bit || bit_at(before, k)) by {
            lemma_set_bit(before[word as int], shift, (k % 64) as u64);
        }
    }
}

/// The span of `done` positions from `start` on, lengthened by the aligned block at `bit`.
proof fn lemma_span(k: int, start: int, done: int, bit: int, len: int)
    requires
        0 <= k < 0x10_0000,
        0 <= start < 0x10_0000,
        0 <= done,
        0 < len,
        done + len < 0x10_0000,
        bit == (start + done) % 0x10_0000,
        bit + len <= 0x10_0000,
    ensures
        ring(k, start) < done + len <==> ring(k, start) < done || bit <= k < bit + len,
{
}

/// The windows of all senders.
pub type FilterState = Map<u64, WindowState>;

/// A packet is fresh if it is at most 645 ticks old and at most 59 ticks early.
pub open spec fn fresh(current_time: u32, packet_time: u32) -> bool {
    -MAX_FUTURE_TICKS <= tick_distance(current_time, packet_time) <= MAX_PAST_TICKS
}

/// The decision about a packet, and the windows after it.
pub open spec fn check(
    m: FilterState,
    current_time: u32,
    packet_time: u32,
    seq_id: u64,
    seq_no: u64,
) -> (FilterState, Result<(), SequenceDrop>) {
    if !fresh(current_time, packet_time) {
        (m, Err(SequenceDrop::Freshness))
    } else if !m.contains_key(seq_id) {
        (m.insert(seq_id, first_window(seq_no, packet_time)), Ok(()))
    } else if accepts(m[seq_id], seq_no) {
        (m.insert(seq_id, inserted(m[seq_id], seq_no, packet_time)), Ok(()))
    } else {
        (m, Err(SequenceDrop::Replay))
    }
}

/// Ticks since the newest packet of a window.
pub open spec fn age(m: FilterState, seq_id: u64, current_time: u32) -> int {
    tick_distance(current_time, m[seq_id].newest_time)
}

/// The window is older than any packet that would still be fresh.
pub open spec fn expired(m: FilterState, seq_id: u64, current_time: u32) -> bool {
    m.contains_key(seq_id) && age(m, seq_id, current_time) > MAX_PAST_TICKS
}

/// Window `a` has to go before window `b`: it is older or, at the same age, has the
/// greater id.
pub open spec fn goes_before(m: FilterState, a: u64, b: u64, current_time: u32) -> bool {
    age(m, a, current_time) > age(m, b, current_time) || (age(m, a, current_time) == age(
        m,
        b,
        current_time,
    ) && a >= b)
}

/// The expired window that has to go first.
pub open spec fn is_oldest(m: FilterState, seq_id: u64, current_time: u32) -> bool {
    &&& expired(m, seq_id, current_time)
    &&& forall|other: u64| #[trigger]
        expired(m, other, current_time) ==> goes_before(m, seq_id, other, current_time)
}

pub open spec fn oldest(m: FilterState, current_time: u32) -> u64 {
    choose|seq_id: u64| is_oldest(m, seq_id, current_time)
}

pub open spec fn any_expired(m: FilterState, current_time: u32) -> bool {
    exists|seq_id: u64| expired(m, seq_id, current_time)
}

/// The ids of the expired windows that go while more than `cap` windows are left, oldest
/// first.
pub open spec fn expiring(m: FilterState, current_time: u32, cap: nat) -> Seq<u64>
    decreases m.len(),
    when m.dom().finite()
{
    if m.len() <= cap || !any_expired(m, current_time) {
        Seq::empty()
    } else {
        let first = oldest(m, current_time);
        if m.contains_key(first) {
            seq![first] + expiring(m.remove(first), current_time, cap)
        } else {
            Seq::empty()
        }
    }
}

pub open spec fn without(m: FilterState, ids: Seq<u64>) -> FilterState
    decreases ids.len(),
{
    if ids.len() == 0 {
        m
    } else {
        without(m.remove(ids[0]), ids.drop_first())
    }
}

/// Milliseconds until the window expires.
pub open spec fn expiry_delay(m: FilterState, seq_id: u64, current_time: u32) -> int {
    let left = MAX_PAST_TICKS + 1 - age(m, seq_id, current_time);
    if left >= 0 {
        left * 1024
    } else {
        0
    }
}

/// `delay` is the shortest of the expiry delays.
pub open spec fn is_next_expiry(m: FilterState, current_time: u32, delay: int) -> bool {
    &&& forall|id: u64| #[trigger] m.contains_key(id) ==> delay <= expiry_delay(m, id, current_time)
    &&& exists|id: u64| #[trigger] m.contains_key(id) && delay == expiry_delay(m, id, current_time)
}

/// Milliseconds until the next window can go, where there are more than `cap`.
pub open spec fn next_expiry(m: FilterState, current_time: u32, cap: nat) -> Option<u64> {
    if m.len() <= cap {
        None
    } else {
        Some((choose|delay: int| is_next_expiry(m, current_time, delay)) as u64)
    }
}

pub struct SequenceFilter {
    pub windows: BTreeMap<u64, SequenceWindow>,
}

impl View for SequenceFilter {
    type V = FilterState;

    open spec fn view(&self) -> FilterState {
        Map::new(|id: u64| self.windows@.contains_key(id), |id: u64| self.windows@[id]@)
    }
}

impl Default for SequenceFilter {
    fn default() -> (filter: Self)
        ensures
            filter.wf(),
            filter@ == Map::<u64, WindowState>::empty(),
    {
        let filter = SequenceFilter { windows: BTreeMap::new() };
        assert(filter@ =~= Map::<u64, WindowState>::empty());
        filter
    }
}

impl SequenceFilter {
    pub open spec fn wf(&self) -> bool {
        forall|id: u64| #[trigger] self.windows@.contains_key(id) ==> self.windows@[id].wf()
    }

    proof fn lemma_view(&self)
        ensures
            self@.dom() == self.windows@.dom(),
            self@.dom().finite(),
            self@.len() == self.windows@.len(),
    {
        assert(self@.dom() =~= self.windows@.dom());
    }

    pub fn len(&self) -> (len: usize)
        ensures
            len == self@.len(),
    {
        proof {
            self.lemma_view();
        }
        self.windows.len()
    }

    /// Whether packets of a sender are remembered.
    pub fn contains(&self, seq_id: u64) -> (yes: bool)
        ensures
            yes == self@.contains_key(seq_id),
    {
        proof {
            self.lemma_view();
        }
        self.windows.contains_key(&seq_id)
    }

    /// Whether the packet would be taken.
    pub fn would_accept(
        &self,
        current_time: u32,
        packet_time: u32,
        seq_id: u64,
        seq_no: u64,
    ) -> (yes: bool)
        requires
            self.wf(),
        ensures
            yes == (check(self@, current_time, packet_time, seq_id, seq_no).1 is Ok),
    {
        let age: i32 = time_diff(current_time, packet_time);
        if age > MAX_PAST_TICKS || age < -MAX_FUTURE_TICKS {
            return false;
        }
        match self.windows.get(&seq_id) {
            None => true,
            Some(window) => {
                if seq_no > window.max_seq_no {
                    return true;
                }
                if window.max_seq_no - seq_no >= WINDOW_BITS as u64 {
                    return false;
                }
                !window.is_set(seq_no)
            },
        }
    }

    pub fn check_and_insert(
        &mut self,
        current_time: u32,
        packet_time: u32,
        seq_id: u64,
        seq_no: u64,
    ) -> (result: Result<(), SequenceDrop>)
        requires
            old(self).wf(),
        ensures
            final(self).wf(),
            (final(self)@, result) == check(
                old(self)@,
                current_time,
                packet_time,
                seq_id,
                seq_no,
            ),
    {
        let age: i32 = time_diff(current_time, packet_time);
        if age > MAX_PAST_TICKS {
            return Err(SequenceDrop::Freshness);
        }
        if age < -MAX_FUTURE_TICKS {
            return Err(SequenceDrop::Freshness);
        }
        let ghost before = self@;
        if let Some(mut window) = self.windows.remove(&seq_id) {
            assert(before.contains_key(seq_id) && before[seq_id] == window@);
            let result = window.insert(seq_no, packet_time);
            self.windows.insert(seq_id, window);
            proof {
                if result is Ok {
                    assert(self@ =~= before.insert(
                        seq_id,
                        inserted(before[seq_id], seq_no, packet_time),
                    ));
                } else {
                    assert(self@ =~= before);
                }
            }
            return result;
        }
        self.windows.insert(seq_id, SequenceWindow::new(seq_no, packet_time));
        assert(self@ =~= before.insert(seq_id, first_window(seq_no, packet_time)));
        Ok(())
    }

    /// The expired window that has to go first.
    fn find_oldest(&self, current_time: u32) -> (found: Option<u64>)
        requires
            self.wf(),
        ensures
            match found {
                Some(id) => is_oldest(self@, id, current_time),
                None => !any_expired(self@, current_time),
            },
    {
        let keys = ordered::sorted_keys(&self.windows);
        let mut found: Option<u64> = None;
        let mut found_age: i32 = 0;
        let mut i: usize = 0;
        while i < keys.len()
            invariant
                ordered::is_ascending(keys@, self.windows@.dom()),
                i <= keys@.len(),
                match found {
                    Some(id) => {
                        &&& expired(self@, id, current_time)
                        &&& found_age == age(self@, id, current_time)
                        &&& forall|j: int|
                            0 <= j < i && expired(self@, #[trigger] keys@[j], current_time)
                                ==> goes_before(self@, id, keys@[j], current_time)
                        &&& exists|j: int| 0 <= j < i && #[trigger] keys@[j] == id
                    },
                    None => forall|j: int|
                        0 <= j < i ==> !expired(self@, #[trigger] keys@[j], current_time),
                },
            decreases keys@.len() - i,
        {
            let id: u64 = keys[i];
            proof {
                assert(keys@.contains(keys@[i as int]));
                assert(self.windows@.dom().contains(id));
            }
            if let Some(window) = self.windows.get(&id) {
                let age: i32 = time_diff(current_time, window.newest_time);
                let replaces: bool = match found {
                    Some(_) => age >= found_age,
                    None => true,
                };
                if age > MAX_PAST_TICKS && replaces {
                    found = Some(id);
                    found_age = age;
                }
            }
            i = i + 1;
        }
        proof {
            assert forall|other: u64| #[trigger] expired(self@, other, current_time) implies exists|
                j: int,
            |
                0 <= j < keys@.len() && #[trigger] keys@[j] == other by {
                assert(self.windows@.dom().contains(other));
                assert(keys@.contains(other));
            }
        }
        found
    }

    /// Removes expired windows, oldest first, while there are more than `cap`.
    pub fn remove_expired(&mut self, current_time: u32, cap: usize) -> (removed: Vec<u64>)
        requires
            old(self).wf(),
        ensures
            final(self).wf(),
            removed@ == expiring(old(self)@, current_time, cap as nat),
            final(self)@ == without(old(self)@, removed@),
    {
        let mut removed: Vec<u64> = Vec::new();
        let ghost start = self@;
        let ghost all = expiring(self@, current_time, cap as nat);
        assert(removed@ + all =~= all);
        loop
            invariant_except_break
                self.wf(),
                all == removed@ + expiring(self@, current_time, cap as nat),
                self@ == without(start, removed@),
            ensures
                self.wf(),
                all == removed@,
                self@ == without(start, removed@),
            decreases self@.len(),
        {
            proof {
                self.lemma_view();
            }
            let ghost before = self@;
            let ghost taken = removed@;
            if self.len() <= cap {
                assert(removed@ + Seq::<u64>::empty() =~= removed@);
                break;
            }
            match self.find_oldest(current_time) {
                None => {
                    assert(removed@ + Seq::<u64>::empty() =~= removed@);
                    break;
                },
                Some(id) => {
                    self.windows.remove(&id);
                    removed.push(id);
                    proof {
                        lemma_oldest_unique(before, id, oldest(before, current_time), current_time);
                        assert(self@ =~= before.remove(id));
                        assert(taken + (seq![id] + expiring(self@, current_time, cap as nat))
                            =~= removed@ + expiring(self@, current_time, cap as nat));
                        lemma_without_push(start, taken, id);
                    }
                },
            }
        }
        assert(removed@ =~= all);
        removed
    }

    /// Milliseconds until the next window can go, where there are more than `cap`.
    pub fn next_expiry_delay_ms(&self, current_time: u32, cap: usize) -> (delay: Option<u64>)
        requires
            self.wf(),
        ensures
            delay == next_expiry(self@, current_time, cap as nat),
    {
        proof {
            self.lemma_view();
        }
        if self.windows.len() <= cap {
            return None;
        }
        let keys = ordered::sorted_keys(&self.windows);
        let mut delay: u64 = u64::MAX;
        let mut i: usize = 0;
        while i < keys.len()
            invariant
                ordered::is_ascending(keys@, self.windows@.dom()),
                i <= keys@.len(),
                forall|j: int|
                    0 <= j < i ==> delay <= expiry_delay(self@, #[trigger] keys@[j], current_time),
                i == 0 ==> delay == u64::MAX,
                i > 0 ==> exists|j: int|
                    0 <= j < i && delay == expiry_delay(
                        self@,
                        #[trigger] keys@[j],
                        current_time,
                    ),
            decreases keys@.len() - i,
        {
            let id: u64 = keys[i];
            proof {
                assert(keys@.contains(keys@[i as int]));
                assert(self.windows@.dom().contains(id));
            }
            if let Some(window) = self.windows.get(&id) {
                let age: i32 = time_diff(current_time, window.newest_time);
                let left: i32 = MAX_PAST_TICKS + 1 - age;
                let wait: u64 = if left >= 0 {
                    left as u64 * 1024
                } else {
                    0
                };
                assert(wait == expiry_delay(self@, id, current_time));
                if wait < delay {
                    delay = wait;
                }
            }
            i = i + 1;
        }
        proof {
            assert(keys@.len() > 0) by {
                if keys@.len() == 0 {
                    assert(self.windows@.dom() =~= Set::empty());
                }
            }
            assert forall|id: u64| #[trigger] self@.contains_key(id) implies delay <= expiry_delay(
                self@,
                id,
                current_time,
            ) by {
                assert(self.windows@.dom().contains(id));
                assert(keys@.contains(id));
            }
            let j = choose|j: int|
                0 <= j < keys@.len() && delay == expiry_delay(
                    self@,
                    #[trigger] keys@[j],
                    current_time,
                );
            assert(keys@.contains(keys@[j]));
            assert(self.windows@.dom().contains(keys@[j]));
            assert(self@.contains_key(keys@[j]));
            assert(is_next_expiry(self@, current_time, delay as int));
            let other = choose|delay: int| is_next_expiry(self@, current_time, delay);
            assert(is_next_expiry(self@, current_time, other));
            assert(other == delay);
        }
        Some(delay)
    }
}

proof fn lemma_oldest_unique(m: FilterState, a: u64, b: u64, current_time: u32)
    requires
        is_oldest(m, a, current_time),
        is_oldest(m, b, current_time),
    ensures
        a == b,
{
    assert(goes_before(m, a, b, current_time));
    assert(goes_before(m, b, a, current_time));
}

proof fn lemma_without_push(m: FilterState, ids: Seq<u64>, id: u64)
    ensures
        without(m, ids.push(id)) == without(m, ids).remove(id),
    decreases ids.len(),
{
    reveal_with_fuel(without, 2);
    if ids.len() == 0 {
        assert(ids.push(id).drop_first() =~= Seq::empty());
        assert(ids.push(id)[0] == id);
    } else {
        assert(ids.push(id).drop_first() =~= ids.drop_first().push(id));
        lemma_without_push(m.remove(ids[0]), ids.drop_first(), id);
    }
}

/// A packet number that has been taken is not taken again.
pub proof fn law_accepted_once(w: WindowState, seq_no: u64, time: u32)
    requires
        accepts(w, seq_no),
    ensures
        !accepts(inserted(w, seq_no, time), seq_no),
{
}

/// A packet number that is refused stays refused, whatever else is taken meanwhile.
pub proof fn law_refused_stays_refused(w: WindowState, seq_no: u64, other: u64, time: u32)
    requires
        !accepts(w, seq_no),
        accepts(w, other),
    ensures
        !accepts(inserted(w, other, time), seq_no),
{
}

/// The window after one more packet has been tried.
pub open spec fn tried(w: WindowState, seq_no: u64, time: u32) -> WindowState {
    if accepts(w, seq_no) {
        inserted(w, seq_no, time)
    } else {
        w
    }
}

/// The window after a first packet and a row of packets, each with its number and its time.
pub open spec fn window_history(first: (u64, u32), packets: Seq<(u64, u32)>) -> WindowState
    decreases packets.len(),
{
    if packets.len() == 0 {
        first_window(first.0, first.1)
    } else {
        let (seq_no, time) = packets.last();
        tried(window_history(first, packets.drop_last()), seq_no, time)
    }
}

/// All numbers that have been taken, the first one included, however far back they lie.
pub open spec fn taken_numbers(first: (u64, u32), packets: Seq<(u64, u32)>) -> Set<u64>
    decreases packets.len(),
{
    if packets.len() == 0 {
        set![first.0]
    } else {
        let (seq_no, _time) = packets.last();
        let before = taken_numbers(first, packets.drop_last());
        if accepts(window_history(first, packets.drop_last()), seq_no) {
            before.insert(seq_no)
        } else {
            before
        }
    }
}

/// A window takes a number exactly where it is greater than all that have been taken, or lies
/// less than a window below the greatest one and has not been taken before. A number that is
/// refused changes nothing; one that is taken moves the end of the window and the newest time
/// forward, where it lies behind them.
pub proof fn law_window_takes_each_number_once(
    first: (u64, u32),
    packets: Seq<(u64, u32)>,
    seq_no: u64,
    time: u32,
)
    ensures
        ({
            let w = window_history(first, packets);
            let taken = taken_numbers(first, packets);
            let next = tried(w, seq_no, time);
            &&& accepts(w, seq_no) <==> seq_no > w.max_seq_no || (w.max_seq_no - seq_no
                < WINDOW_BITS && !taken.contains(seq_no))
            &&& taken.contains(w.max_seq_no)
            &&& forall|n: u64| #[trigger] taken.contains(n) ==> n <= w.max_seq_no
            &&& !accepts(w, seq_no) ==> next == w
            &&& accepts(w, seq_no) ==> {
                &&& next.max_seq_no == if seq_no > w.max_seq_no {
                    seq_no
                } else {
                    w.max_seq_no
                }
                &&& next.newest_time == if tick_distance(time, w.newest_time) > 0 {
                    time
                } else {
                    w.newest_time
                }
            }
        }),
{
    lemma_window_history(first, packets);
}

proof fn lemma_window_history(first: (u64, u32), packets: Seq<(u64, u32)>)
    ensures
        ({
            let w = window_history(first, packets);
            let taken = taken_numbers(first, packets);
            &&& taken.contains(w.max_seq_no)
            &&& forall|n: u64| #[trigger] taken.contains(n) ==> n <= w.max_seq_no
            &&& forall|n: u64| #[trigger]
                w.seen.contains(n) <==> taken.contains(n) && in_window(w.max_seq_no, n)
        }),
    decreases packets.len(),
{
    if packets.len() > 0 {
        lemma_window_history(first, packets.drop_last());
    }
}

/// A packet number that has been taken is refused for good, whatever packets follow.
pub proof fn law_window_never_takes_again(
    first: (u64, u32),
    packets: Seq<(u64, u32)>,
    seq_no: u64,
)
    requires
        taken_numbers(first, packets).contains(seq_no),
    ensures
        !accepts(window_history(first, packets), seq_no),
{
    lemma_window_history(first, packets);
}

/// A packet that the filter has just taken is dropped when it comes again.
pub proof fn law_no_replay(
    m: FilterState,
    current_time: u32,
    packet_time: u32,
    seq_id: u64,
    seq_no: u64,
    later_current: u32,
    later_packet: u32,
)
    requires
        check(m, current_time, packet_time, seq_id, seq_no).1 is Ok,
    ensures
        check(
            check(m, current_time, packet_time, seq_id, seq_no).0,
            later_current,
            later_packet,
            seq_id,
            seq_no,
        ).1 is Err,
{
}

/// The packets of one sender do not touch the window of another.
pub proof fn law_senders_are_independent(
    m: FilterState,
    current_time: u32,
    packet_time: u32,
    seq_id: u64,
    seq_no: u64,
    other: u64,
)
    requires
        other != seq_id,
    ensures
        ({
            let after = check(m, current_time, packet_time, seq_id, seq_no).0;
            &&& after.contains_key(other) == m.contains_key(other)
            &&& m.contains_key(other) ==> after[other] == m[other]
        }),
{
}

/// A window is given up only when none of its packets is fresh any more: a packet that is
/// not newer than the newest one of an expired window is refused for its age. (Ages beyond
/// half the tick circle cannot be told from the future.)
pub proof fn law_expired_packets_are_stale(
    m: FilterState,
    seq_id: u64,
    current_time: u32,
    packet_time: u32,
)
    requires
        expired(m, seq_id, current_time),
        tick_distance(m[seq_id].newest_time, packet_time) >= 0,
        age(m, seq_id, current_time) + tick_distance(m[seq_id].newest_time, packet_time)
            < 0x200_0000,
    ensures
        !fresh(current_time, packet_time),
{
}

/// What `remove_expired` takes out is expired, and it stops at `cap` windows or when no
/// expired one is left.
pub proof fn law_expiring(m: FilterState, current_time: u32, cap: nat)
    requires
        m.dom().finite(),
    ensures
        ({
            let ids = expiring(m, current_time, cap);
            let left = without(m, ids);
            &&& forall|i: int|
                0 <= i < ids.len() ==> expired(m, #[trigger] ids[i], current_time)
            &&& left.len() == m.len() - ids.len()
            &&& left.len() <= cap || !any_expired(left, current_time)
            &&& ids.len() > 0 ==> left.len() >= cap
            &&& left.submap_of(m)
        }),
    decreases m.len(),
{
    let ids = expiring(m, current_time, cap);
    if m.len() <= cap || !any_expired(m, current_time) {
        assert(without(m, ids) == m);
    } else {
        lemma_oldest_exists(m, current_time);
        let first = oldest(m, current_time);
        let rest = m.remove(first);
        law_expiring(rest, current_time, cap);
        let tail = expiring(rest, current_time, cap);
        assert(ids.drop_first() =~= tail);
        assert(without(m, ids) == without(rest, tail));
        assert forall|i: int| 0 <= i < ids.len() implies expired(
            m,
            #[trigger] ids[i],
            current_time,
        ) by {
            if i > 0 {
                assert(ids[i] == tail[i - 1]);
                assert(expired(rest, tail[i - 1], current_time));
            }
        }
    }
}

/// Where a window is expired, one of them has to go first.
proof fn lemma_oldest_exists(m: FilterState, current_time: u32)
    requires
        m.dom().finite(),
        any_expired(m, current_time),
    ensures
        is_oldest(m, oldest(m, current_time), current_time),
    decreases m.len(),
{
    let some = choose|id: u64| expired(m, id, current_time);
    let rest = m.remove(some);
    if any_expired(rest, current_time) {
        lemma_oldest_exists(rest, current_time);
        let other = oldest(rest, current_time);
        assert(expired(m, other, current_time));
        assert forall|x: u64| expired(m, x, current_time) && x != some implies #[trigger] expired(
            rest,
            x,
            current_time,
        ) by {}
        if goes_before(m, some, other, current_time) {
            assert forall|x: u64| #[trigger] expired(m, x, current_time) implies goes_before(
                m,
                some,
                x,
                current_time,
            ) by {
                if x != some {
                    assert(expired(rest, x, current_time));
                    assert(goes_before(rest, other, x, current_time));
                }
            }
            assert(is_oldest(m, some, current_time));
        } else {
            assert forall|x: u64| #[trigger] expired(m, x, current_time) implies goes_before(
                m,
                other,
                x,
                current_time,
            ) by {
                if x != some {
                    assert(expired(rest, x, current_time));
                    assert(goes_before(rest, other, x, current_time));
                }
            }
            assert(is_oldest(m, other, current_time));
        }
    } else {
        assert forall|x: u64| #[trigger] expired(m, x, current_time) implies goes_before(
            m,
            some,
            x,
            current_time,
        ) by {
            if x != some {
                assert(expired(rest, x, current_time));
            }
        }
        assert(is_oldest(m, some, current_time));
    }
}

// ---------------------------------------------------------------------------
// Over time
// ---------------------------------------------------------------------------

/// A time in ticks, as far as packets tell it.
pub open spec fn tick(time: int) -> u32 {
    (time % 0x400_0000) as u32
}

/// What happens to a filter.
pub enum FilterEvent {
    Checked { time: int, packet_time: u32, seq_id: u64, seq_no: u64 },
    Evicted { time: int, cap: nat },
}

pub open spec fn event_time(event: FilterEvent) -> int {
    match event {
        FilterEvent::Checked { time, .. } => time,
        FilterEvent::Evicted { time, .. } => time,
    }
}

/// The windows after an event.
pub open spec fn filter_after(m: FilterState, event: FilterEvent) -> FilterState {
    match event {
        FilterEvent::Checked { time, packet_time, seq_id, seq_no } => check(
            m,
            tick(time),
            packet_time,
            seq_id,
            seq_no,
        ).0,
        FilterEvent::Evicted { time, cap } => without(m, expiring(m, tick(time), cap)),
    }
}

/// The windows after a row of events.
pub open spec fn filter_history(m: FilterState, events: Seq<FilterEvent>) -> FilterState
    decreases events.len(),
{
    if events.len() == 0 {
        m
    } else {
        filter_after(filter_history(m, events.drop_last()), events.last())
    }
}

/// The events come one after the other, from `start` up to `end`.
pub open spec fn in_time(start: int, events: Seq<FilterEvent>, end: int) -> bool
    decreases events.len(),
{
    if events.len() == 0 {
        start <= end
    } else {
        event_time(events.last()) <= end && in_time(
            start,
            events.drop_last(),
            event_time(events.last()),
        )
    }
}

/// Two rows of events, one behind the other.
pub proof fn lemma_filter_append(
    m: FilterState,
    a: Seq<FilterEvent>,
    b: Seq<FilterEvent>,
)
    ensures
        filter_history(m, a + b) == filter_history(
            filter_history(m, a),
            b,
        ),
    decreases b.len(),
{
    if b.len() == 0 {
        assert(a + b =~= a);
    } else {
        assert((a + b).drop_last() =~= a + b.drop_last());
        lemma_filter_append(m, a, b.drop_last());
    }
}

/// Two rows of events, the second not before the end of the first.
pub proof fn lemma_time_append(
    start: int,
    a: Seq<FilterEvent>,
    b: Seq<FilterEvent>,
    middle: int,
    end: int,
)
    requires
        in_time(start, a, middle),
        in_time(middle, b, end),
    ensures
        in_time(start, a + b, end),
    decreases b.len(),
{
    if b.len() == 0 {
        assert(a + b =~= a);
    } else {
        assert((a + b).drop_last() =~= a + b.drop_last());
        lemma_time_append(start, a, b.drop_last(), middle, event_time(b.last()));
    }
}

/// When a packet was made, as far as can be told at `time`.
pub open spec fn made_at(time: int, packet_time: u32) -> int {
    time - tick_distance(tick(time), packet_time)
}

/// At `time`, a packet that was made at `made` is too old, or its number has been seen and
/// the window knows a packet that is not older.
pub open spec fn remembered(
    m: FilterState,
    time: int,
    made: int,
    seq_id: u64,
    seq_no: u64,
) -> bool {
    time - made > MAX_PAST_TICKS || {
        &&& m.contains_key(seq_id)
        &&& !accepts(m[seq_id], seq_no)
        &&& exists|newest: int|
            made <= newest <= time + MAX_FUTURE_TICKS && #[trigger] tick(newest)
                == m[seq_id].newest_time % 0x400_0000
    }
}

/// A window that is not among those taken out stays as it is.
proof fn lemma_without_keeps(m: FilterState, ids: Seq<u64>, id: u64)
    requires
        m.contains_key(id),
        !ids.contains(id),
    ensures
        without(m, ids).contains_key(id),
        without(m, ids)[id] == m[id],
    decreases ids.len(),
{
    if ids.len() > 0 {
        assert(ids.contains(ids[0]));
        assert forall|x: u64| #[trigger] ids.drop_first().contains(x) implies ids.contains(x) by {
            let i = choose|i: int| 0 <= i < ids.drop_first().len() && ids.drop_first()[i] == x;
            assert(ids[i + 1] == x);
        }
        lemma_without_keeps(m.remove(ids[0]), ids.drop_first(), id);
    }
}

proof fn lemma_without_finite(m: FilterState, ids: Seq<u64>)
    requires
        m.dom().finite(),
    ensures
        without(m, ids).dom().finite(),
    decreases ids.len(),
{
    if ids.len() > 0 {
        lemma_without_finite(m.remove(ids[0]), ids.drop_first());
    }
}

/// Ticks that are less than half the circle apart tell the distance of their times.
proof fn lemma_distance(a: int, b: int, tick_a: u32, tick_b: u32)
    requires
        -0x200_0000 <= a - b < 0x200_0000,
        tick(a) == tick_a % 0x400_0000,
        tick(b) == tick_b % 0x400_0000,
    ensures
        tick_distance(tick_a, tick_b) == a - b,
{
    let m = 0x400_0000int;
    let x = tick_a as int;
    let y = tick_b as int;
    let k = (x / m - y / m) - (a / m - b / m);
    assert(x - y == m * k + (a - b));
    vstd::arithmetic::div_mod::lemma_mod_multiples_vanish(k, a - b, m);
}

/// The time at which a packet was made is the one that it tells.
proof fn lemma_made_at(time: int, packet_time: u32)
    ensures
        tick(made_at(time, packet_time)) == packet_time % 0x400_0000,
{
    let m = 0x400_0000int;
    let x = tick(time) - packet_time;
    let k = if x % m >= 0x200_0000 {
        time / m + x / m + 1
    } else {
        time / m + x / m
    };
    assert(made_at(time, packet_time) == m * k + packet_time);
    vstd::arithmetic::div_mod::lemma_mod_multiples_vanish(k, packet_time as int, m);
}

/// The later of two packets that are less than half the circle apart.
proof fn lemma_later_time(time: int, newest: int, newest_time: u32, packet_time: u32)
    requires
        -0x200_0000 <= made_at(time, packet_time) - newest < 0x200_0000,
        tick(newest) == newest_time % 0x400_0000,
    ensures
        ({
            let made = made_at(time, packet_time);
            let last = if made > newest {
                made
            } else {
                newest
            };
            tick(last) == later_time(newest_time, packet_time) % 0x400_0000
        }),
{
    lemma_made_at(time, packet_time);
    lemma_distance(made_at(time, packet_time), newest, packet_time, newest_time);
}

proof fn lemma_remembered(
    m: FilterState,
    before: int,
    made: int,
    seq_id: u64,
    seq_no: u64,
    event: FilterEvent,
)
    requires
        m.dom().finite(),
        before <= event_time(event),
        remembered(m, before, made, seq_id, seq_no),
    ensures
        filter_after(m, event).dom().finite(),
        remembered(filter_after(m, event), event_time(event), made, seq_id, seq_no),
{
    let time = event_time(event);
    let next = filter_after(m, event);
    match event {
        FilterEvent::Checked { packet_time, seq_id: id, seq_no: no, .. } => {
            if time - made <= MAX_PAST_TICKS {
                let newest = choose|newest: int|
                    made <= newest <= before + MAX_FUTURE_TICKS && #[trigger] tick(newest)
                        == m[seq_id].newest_time % 0x400_0000;
                if id == seq_id && fresh(tick(time), packet_time) && accepts(m[seq_id], no) {
                    lemma_later_time(time, newest, m[seq_id].newest_time, packet_time);
                    let at = made_at(time, packet_time);
                    let last = if at > newest {
                        at
                    } else {
                        newest
                    };
                    assert(tick(last) == next[seq_id].newest_time % 0x400_0000);
                    law_refused_stays_refused(m[seq_id], seq_no, no, packet_time);
                } else {
                    assert(next[seq_id] == m[seq_id]);
                    assert(tick(newest) == next[seq_id].newest_time % 0x400_0000);
                }
            }
        },
        FilterEvent::Evicted { cap, .. } => {
            let ids = expiring(m, tick(time), cap);
            law_expiring(m, tick(time), cap);
            lemma_without_finite(m, ids);
            if time - made <= MAX_PAST_TICKS {
                let newest = choose|newest: int|
                    made <= newest <= before + MAX_FUTURE_TICKS && #[trigger] tick(newest)
                        == m[seq_id].newest_time % 0x400_0000;
                lemma_distance(time, newest, tick(time), m[seq_id].newest_time);
                if ids.contains(seq_id) {
                    let i = choose|i: int| 0 <= i < ids.len() && ids[i] == seq_id;
                    assert(expired(m, ids[i], tick(time)));
                }
                lemma_without_keeps(m, ids, seq_id);
                assert(tick(newest) == next[seq_id].newest_time % 0x400_0000);
            }
        },
    }
}

proof fn lemma_history_remembers(
    m: FilterState,
    start: int,
    events: Seq<FilterEvent>,
    end: int,
    made: int,
    seq_id: u64,
    seq_no: u64,
)
    requires
        m.dom().finite(),
        in_time(start, events, end),
        remembered(m, start, made, seq_id, seq_no),
    ensures
        filter_history(m, events).dom().finite(),
        remembered(filter_history(m, events), end, made, seq_id, seq_no),
    decreases events.len(),
{
    let h = filter_history(m, events);
    if events.len() > 0 {
        let at = event_time(events.last());
        lemma_history_remembers(m, start, events.drop_last(), at, made, seq_id, seq_no);
        lemma_remembered(
            filter_history(m, events.drop_last()),
            at,
            made,
            seq_id,
            seq_no,
            events.last(),
        );
        lemma_time_passes(h, at, end, made, seq_id, seq_no);
    } else {
        lemma_time_passes(h, start, end, made, seq_id, seq_no);
    }
}

proof fn lemma_time_passes(
    m: FilterState,
    start: int,
    end: int,
    made: int,
    seq_id: u64,
    seq_no: u64,
)
    requires
        start <= end,
        remembered(m, start, made, seq_id, seq_no),
    ensures
        remembered(m, end, made, seq_id, seq_no),
{
    if end - made <= MAX_PAST_TICKS {
        let newest = choose|newest: int|
            made <= newest <= start + MAX_FUTURE_TICKS && #[trigger] tick(newest)
                == m[seq_id].newest_time % 0x400_0000;
        assert(tick(newest) == m[seq_id].newest_time % 0x400_0000);
    }
}

/// The newest packet of each window was fresh at some time from `origin` up to `time`.
pub open spec fn dated(m: FilterState, origin: int, time: int) -> bool {
    forall|id: u64| #[trigger]
        m.contains_key(id) ==> exists|newest: int|
            origin - MAX_PAST_TICKS <= newest <= time + MAX_FUTURE_TICKS && #[trigger] tick(newest)
                == m[id].newest_time % 0x400_0000
}

proof fn lemma_without_submap(m: FilterState, ids: Seq<u64>)
    ensures
        forall|id: u64| #[trigger]
            without(m, ids).contains_key(id) ==> m.contains_key(id) && without(m, ids)[id] == m[id],
    decreases ids.len(),
{
    if ids.len() > 0 {
        let rest = m.remove(ids[0]);
        lemma_without_submap(rest, ids.drop_first());
        let left = without(rest, ids.drop_first());
        assert(without(m, ids) == left);
        assert forall|id: u64| #[trigger] without(m, ids).contains_key(id) implies m.contains_key(
            id,
        ) && without(m, ids)[id] == m[id] by {
            assert(left.contains_key(id));
            assert(rest.contains_key(id));
        }
    }
}

proof fn lemma_dated(m: FilterState, origin: int, before: int, event: FilterEvent)
    requires
        m.dom().finite(),
        origin <= before <= event_time(event),
        event_time(event) - origin < 0x200_0000 - MAX_PAST_TICKS - MAX_FUTURE_TICKS,
        dated(m, origin, before),
    ensures
        filter_after(m, event).dom().finite(),
        dated(filter_after(m, event), origin, event_time(event)),
{
    let time = event_time(event);
    let next = filter_after(m, event);
    if let FilterEvent::Evicted { cap, .. } = event {
        lemma_without_finite(m, expiring(m, tick(time), cap));
        lemma_without_submap(m, expiring(m, tick(time), cap));
    }
    assert forall|id: u64| #[trigger] next.contains_key(id) implies exists|newest: int|
        origin - MAX_PAST_TICKS <= newest <= time + MAX_FUTURE_TICKS && #[trigger] tick(newest)
            == next[id].newest_time % 0x400_0000 by {
        if m.contains_key(id) {
            let newest = choose|newest: int|
                origin - MAX_PAST_TICKS <= newest <= before + MAX_FUTURE_TICKS
                    && #[trigger] tick(newest) == m[id].newest_time % 0x400_0000;
            if next[id] == m[id] {
                assert(tick(newest) == next[id].newest_time % 0x400_0000);
            } else if let FilterEvent::Checked { packet_time, .. } = event {
                let made = made_at(time, packet_time);
                lemma_later_time(time, newest, m[id].newest_time, packet_time);
                let last = if made > newest {
                    made
                } else {
                    newest
                };
                assert(tick(last) == next[id].newest_time % 0x400_0000);
            }
        } else if let FilterEvent::Checked { packet_time, .. } = event {
            let made = made_at(time, packet_time);
            lemma_made_at(time, packet_time);
            assert(tick(made) == next[id].newest_time % 0x400_0000);
        }
    }
}

proof fn lemma_history_dated(origin: int, events: Seq<FilterEvent>, end: int)
    requires
        in_time(origin, events, end),
        end - origin < 0x200_0000 - MAX_PAST_TICKS - MAX_FUTURE_TICKS,
    ensures
        filter_history(Map::empty(), events).dom().finite(),
        dated(filter_history(Map::empty(), events), origin, end),
        origin <= end,
    decreases events.len(),
{
    let h = filter_history(Map::empty(), events);
    if events.len() > 0 {
        let at = event_time(events.last());
        let before = filter_history(Map::empty(), events.drop_last());
        lemma_history_dated(origin, events.drop_last(), at);
        lemma_dated(before, origin, at, events.last());
        assert forall|id: u64| #[trigger] h.contains_key(id) implies exists|newest: int|
            origin - MAX_PAST_TICKS <= newest <= end + MAX_FUTURE_TICKS && #[trigger] tick(newest)
                == h[id].newest_time % 0x400_0000 by {
            let newest = choose|newest: int|
                origin - MAX_PAST_TICKS <= newest <= at + MAX_FUTURE_TICKS
                    && #[trigger] tick(newest) == h[id].newest_time % 0x400_0000;
            assert(tick(newest) == h[id].newest_time % 0x400_0000);
        }
    }
}

/// No packet is taken twice in the life of a filter, whatever packets come before and in
/// between and whatever windows are given up: a second one like it is refused as a replay or,
/// once it is too old, for its age. The times of the packets lie on half the tick circle; what
/// is further apart cannot be told.
pub proof fn law_taken_once(
    origin: int,
    earlier: Seq<FilterEvent>,
    start: int,
    packet_time: u32,
    seq_id: u64,
    seq_no: u64,
    events: Seq<FilterEvent>,
    end: int,
)
    requires
        in_time(origin, earlier, start),
        in_time(start, events, end),
        end - origin < 0x200_0000 - MAX_PAST_TICKS - MAX_FUTURE_TICKS,
        check(
            filter_history(Map::empty(), earlier),
            tick(start),
            packet_time,
            seq_id,
            seq_no,
        ).1 is Ok,
    ensures
        ({
            let m = filter_history(Map::empty(), earlier);
            let taken = check(m, tick(start), packet_time, seq_id, seq_no).0;
            let later = filter_history(taken, events);
            check(later, tick(end), packet_time, seq_id, seq_no) == (
                later,
                Err::<(), SequenceDrop>(
                    if fresh(tick(end), packet_time) {
                        SequenceDrop::Replay
                    } else {
                        SequenceDrop::Freshness
                    },
                ),
            )
        }),
{
    let m = filter_history(Map::empty(), earlier);
    let taken = check(m, tick(start), packet_time, seq_id, seq_no).0;
    let made = made_at(start, packet_time);
    lemma_in_time(start, events, end);
    lemma_history_dated(origin, earlier, start);
    lemma_taken_is_remembered(m, origin, start, packet_time, seq_id, seq_no);
    lemma_history_remembers(taken, start, events, end, made, seq_id, seq_no);
    if end - made > MAX_PAST_TICKS {
        lemma_stale(start, end, packet_time);
    }
}

/// A packet that is taken is remembered.
proof fn lemma_taken_is_remembered(
    m: FilterState,
    origin: int,
    start: int,
    packet_time: u32,
    seq_id: u64,
    seq_no: u64,
)
    requires
        m.dom().finite(),
        dated(m, origin, start),
        origin <= start,
        start - origin < 0x200_0000 - MAX_PAST_TICKS - MAX_FUTURE_TICKS,
        check(m, tick(start), packet_time, seq_id, seq_no).1 is Ok,
    ensures
        ({
            let taken = check(m, tick(start), packet_time, seq_id, seq_no).0;
            &&& taken.dom().finite()
            &&& remembered(taken, start, made_at(start, packet_time), seq_id, seq_no)
        }),
{
    let taken = check(m, tick(start), packet_time, seq_id, seq_no).0;
    let made = made_at(start, packet_time);
    lemma_made_at(start, packet_time);
    if m.contains_key(seq_id) {
        let newest = choose|newest: int|
            origin - MAX_PAST_TICKS <= newest <= start + MAX_FUTURE_TICKS
                && #[trigger] tick(newest) == m[seq_id].newest_time % 0x400_0000;
        lemma_later_time(start, newest, m[seq_id].newest_time, packet_time);
        let last = if made > newest {
            made
        } else {
            newest
        };
        assert(tick(last) == taken[seq_id].newest_time % 0x400_0000);
        law_accepted_once(m[seq_id], seq_no, packet_time);
    } else {
        assert(tick(made) == taken[seq_id].newest_time % 0x400_0000);
    }
}

/// Once a packet is too old it is not fresh any more.
proof fn lemma_stale(start: int, end: int, packet_time: u32)
    requires
        fresh(tick(start), packet_time),
        start <= end < start + 0x200_0000,
        end - made_at(start, packet_time) > MAX_PAST_TICKS,
    ensures
        !fresh(tick(end), packet_time),
{
    let made = made_at(start, packet_time);
    lemma_made_at(start, packet_time);
    if end - made < 0x200_0000 {
        lemma_distance(end, made, tick(end), packet_time);
    } else {
        lemma_distance(end, made + 0x400_0000, tick(end), packet_time);
    }
}

proof fn lemma_in_time(start: int, events: Seq<FilterEvent>, end: int)
    requires
        in_time(start, events, end),
    ensures
        start <= end,
    decreases events.len(),
{
    if events.len() > 0 {
        lemma_in_time(start, events.drop_last(), event_time(events.last()));
    }
}

/// One of the windows expires first.
proof fn lemma_next_expiry_exists(m: FilterState, current_time: u32) -> (delay: int)
    requires
        m.dom().finite(),
        m.len() > 0,
    ensures
        is_next_expiry(m, current_time, delay),
    decreases m.len(),
{
    let id = m.dom().choose();
    assert(m.contains_key(id));
    let rest = m.remove(id);
    let mine = expiry_delay(m, id, current_time);
    if rest.len() == 0 {
        assert forall|other: u64| #[trigger] m.contains_key(other) implies other == id by {
            if other != id {
                assert(rest.dom().contains(other));
            }
        }
        mine
    } else {
        let other = lemma_next_expiry_exists(rest, current_time);
        let first = choose|x: u64| #[trigger]
            rest.contains_key(x) && other == expiry_delay(rest, x, current_time);
        assert(m.contains_key(first) && other == expiry_delay(m, first, current_time));
        let delay = if mine <= other {
            mine
        } else {
            other
        };
        assert forall|x: u64| #[trigger] m.contains_key(x) implies delay <= expiry_delay(
            m,
            x,
            current_time,
        ) by {
            if x != id {
                assert(rest.contains_key(x));
                assert(expiry_delay(rest, x, current_time) == expiry_delay(m, x, current_time));
            }
        }
        delay
    }
}

/// A window gets older as time passes.
proof fn lemma_age_grows(m: FilterState, id: u64, time: int, later: int)
    requires
        time <= later,
        age(m, id, tick(time)) + (later - time) < 0x200_0000,
    ensures
        age(m, id, tick(later)) == age(m, id, tick(time)) + (later - time),
{
    let newest_time = m[id].newest_time;
    lemma_made_at(time, newest_time);
    lemma_distance(later, made_at(time, newest_time), tick(later), newest_time);
}

/// The time that `next_expiry_delay_ms` gives is the time at which `remove_expired` has
/// something to remove: at that tick it removes a window, and at no tick before. Where there
/// are not more windows than `cap`, none is given.
pub proof fn law_expiry_is_on_time(m: FilterState, time: int, cap: nat, later: int)
    requires
        m.dom().finite(),
        time <= later,
        forall|id: u64| #[trigger]
            m.contains_key(id) ==> -MAX_FUTURE_TICKS <= age(m, id, tick(time)) < 0x100_0000,
    ensures
        next_expiry(m, tick(time), cap) is None <==> m.len() <= cap,
        next_expiry(m, tick(time), cap) matches Some(delay) ==> {
            &&& delay % 1024 == 0
            &&& later == time + delay / 1024 ==> expiring(m, tick(later), cap).len() > 0
            &&& later < time + delay / 1024 ==> expiring(m, tick(later), cap).len() == 0
        },
{
    if m.len() > cap {
        let now = tick(time);
        let found = lemma_next_expiry_exists(m, now);
        let delay = choose|delay: int| is_next_expiry(m, now, delay);
        assert(is_next_expiry(m, now, delay));
        let first = choose|id: u64| #[trigger]
            m.contains_key(id) && delay == expiry_delay(m, id, now);
        assert(m.contains_key(first));
        let ticks = delay / 1024;
        assert(0 <= delay <= 705 * 1024 && delay % 1024 == 0);
        if later == time + ticks {
            lemma_age_grows(m, first, time, later);
            assert(expired(m, first, tick(later)));
            lemma_oldest_exists(m, tick(later));
        }
        if later < time + ticks {
            assert forall|id: u64| !expired(m, id, tick(later)) by {
                if m.contains_key(id) {
                    assert(delay <= expiry_delay(m, id, now));
                    lemma_age_grows(m, id, time, later);
                }
            }
        }
    }
}

/// How a packet is decided about. It is fresh where it is at most 645 ticks old or at most 59
/// ticks early. Of a fresh one the first number of a sender is taken, and so is each number
/// that is greater than all before it, or less than 2^20 below the greatest and not taken
/// yet. A number that is taken is remembered, with those that are still less than 2^20 below
/// the greatest, and the other senders are left alone.
pub proof fn law_filter_decides(
    m: FilterState,
    current_time: u32,
    packet_time: u32,
    seq_id: u64,
    seq_no: u64,
)
    requires
        current_time < 0x400_0000,
        packet_time < 0x400_0000,
    ensures
        ({
            let (after, result) = check(m, current_time, packet_time, seq_id, seq_no);
            let old = (current_time - packet_time) % 0x400_0000 <= 645;
            let early = (packet_time - current_time) % 0x400_0000 <= 59;
            let w = m[seq_id];
            let new = !m.contains_key(seq_id) || w.max_seq_no < seq_no || (w.max_seq_no - seq_no
                < 0x10_0000 && !w.seen.contains(seq_no));
            let top = if m.contains_key(seq_id) && w.max_seq_no > seq_no {
                w.max_seq_no
            } else {
                seq_no
            };
            &&& !(old || early) ==> result == Err::<(), SequenceDrop>(SequenceDrop::Freshness)
            &&& (old || early) && !new ==> result == Err::<(), SequenceDrop>(SequenceDrop::Replay)
            &&& (old || early) && new ==> result is Ok
            &&& result is Err ==> after == m
            &&& result is Ok ==> {
                &&& after.dom() == m.dom().insert(seq_id)
                &&& after[seq_id].max_seq_no == top
                &&& forall|n: u64|
                    #![trigger after[seq_id].seen.contains(n)]
                    after[seq_id].seen.contains(n) <==> n <= top && top - n < 0x10_0000 && (n
                        == seq_no || (m.contains_key(seq_id) && w.seen.contains(n)))
                &&& forall|other: u64|
                    #![trigger after[other]]
                    other != seq_id && m.contains_key(other) ==> after[other] == m[other]
                &&& after[seq_id].newest_time == if m.contains_key(seq_id) && !(0 < (packet_time
                    - w.newest_time) % 0x400_0000 < 0x200_0000) {
                    w.newest_time
                } else {
                    packet_time
                }
            }
        }),
{
    let (after, result) = check(m, current_time, packet_time, seq_id, seq_no);
    if result is Ok {
        assert(after.dom() =~= m.dom().insert(seq_id));
    }
}

/// A window can go once its newest packet is more than 645 ticks old, and the delay until
/// then is counted in ticks of 1024 ms.
pub proof fn law_expiry_of_a_window(m: FilterState, seq_id: u64, current_time: u32)
    requires
        m.contains_key(seq_id),
    ensures
        ({
            let ticks = (current_time - m[seq_id].newest_time) % 0x400_0000;
            &&& expired(m, seq_id, current_time) <==> 645 < ticks < 0x200_0000
            &&& ticks <= 646 ==> expiry_delay(m, seq_id, current_time) == (646 - ticks) * 1024
            &&& 646 <= ticks < 0x200_0000 ==> expiry_delay(m, seq_id, current_time) == 0
        }),
{
}

} // verus!
