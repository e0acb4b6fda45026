//! A counter of the events of the last seconds.
use vstd::prelude::*;

verus! {

pub const BUCKET_NUM: usize = 64;

/// The length of the window, in nanoseconds.
pub const WINDOW_NANOS: u64 = 4294967296;

/// The length of one bucket, in nanoseconds.
pub const BUCKET_LENGTH: u64 = 67108864;

#[verifier::ext_equal]
pub struct CounterState {
    pub buckets: Seq<u32>,
    pub last_update: u64,
}

/// The start of the bucket that a time lies in.
pub open spec fn bucket_start(now: u64) -> int {
    now - now % BUCKET_LENGTH
}

/// The bucket `age` buckets before the one that a time lies in.
pub open spec fn bucket_index(now: u64, age: int) -> int {
    (now as int / BUCKET_LENGTH as int % 64 + 64 - age) % 64
}

/// The bucket of this age still counts.
pub open spec fn counts(s: CounterState, now: u64, age: int) -> bool {
    bucket_start(now) <= s.last_update + age * BUCKET_LENGTH
}

/// How old a bucket is.
pub open spec fn bucket_age(now: u64, index: int) -> int {
    (now as int / BUCKET_LENGTH as int % 64 + 64 - index) % 64
}

/// The buckets, those that no longer count emptied.
pub open spec fn swept(s: CounterState, now: u64) -> Seq<u32> {
    Seq::new(
        64,
        |index: int|
            if counts(s, now, bucket_age(now, index)) {
                s.buckets[index]
            } else {
                0
            },
    )
}

/// The events in the buckets that still count, among the `n` youngest.
pub open spec fn total(s: CounterState, now: u64, n: nat) -> nat
    decreases n,
{
    if n == 0 {
        0
    } else {
        let age = n - 1;
        total(s, now, (n - 1) as nat) + if counts(s, now, age) {
            s.buckets[bucket_index(now, age)] as nat
        } else {
            0
        }
    }
}

/// The counter after `count` more events. One bucket wraps at 2^32.
pub open spec fn added(s: CounterState, now: u64, count: u32) -> CounterState {
    let buckets = swept(s, now);
    let current = bucket_index(now, 0);
    CounterState {
        buckets: buckets.update(
            current,
            ((buckets[current] + count) % 0x1_0000_0000) as u32,
        ),
        last_update: now,
    }
}

#[derive(Debug)]
pub struct TimedCounter {
    buffer: Vec<u32>,
    last_update: u64,
}

impl View for TimedCounter {
    type V = CounterState;

    closed spec fn view(&self) -> CounterState {
        CounterState { buckets: self.buffer@, last_update: self.last_update }
    }
}

impl TimedCounter {
    pub open spec fn wf(&self) -> bool {
        self@.buckets.len() == 64
    }

    /// A counter that has counted nothing. Times are in nanoseconds.
    pub fn new(now: u64) -> (counter: Self)
        ensures
            counter.wf(),
            counter@ == (CounterState { buckets: Seq::new(64, |i: int| 0u32), last_update: now }),
    {
        let mut buffer: Vec<u32> = Vec::with_capacity(BUCKET_NUM);
        while buffer.len() < BUCKET_NUM
            invariant
                buffer@.len() <= 64,
                forall|i: int| 0 <= i < buffer@.len() ==> buffer@[i] == 0,
            decreases 64 - buffer@.len(),
        {
            buffer.push(0);
        }
        assert(buffer@ =~= Seq::new(64, |i: int| 0u32));
        TimedCounter { buffer, last_update: now }
    }

    /// Counts `count` events.
    pub fn add(&mut self, now: u64, count: u32)
        requires
            old(self).wf(),
        ensures
            final(self).wf(),
            final(self)@ == added(old(self)@, now, count),
    {
        let ghost before = self@;
        let current: usize = ((now / BUCKET_LENGTH) % 64) as usize;
        let mut age: usize = 0;
        let mut done: bool = false;
        while age < BUCKET_NUM && !done
            invariant
                before == old(self)@,
                before.buckets.len() == 64,
                self.buffer@.len() == 64,
                self.last_update == before.last_update,
                age <= 64,
                current == now as int / BUCKET_LENGTH as int % 64,
                forall|index: int|
                    0 <= index < 64 ==> (#[trigger] self.buffer@[index]) == if bucket_age(
                        now,
                        index,
                    ) < age {
                        0
                    } else {
                        before.buckets[index]
                    },
                forall|a: int| 0 <= a < age ==> !#[trigger] counts(before, now, a),
                done ==> counts(before, now, age as int),
            decreases 64 - age, if done { 0int } else { 1int },
        {
            let index: usize = (current + BUCKET_NUM - age) % BUCKET_NUM;
            if bucket_counts(self.last_update, now, age) {
                done = true;
            } else {
                let ghost was = self.buffer@;
                self.buffer.set(index, 0);
                proof {
                    assert forall|other: int| 0 <= other < 64 implies (#[trigger] self.buffer@[other])
                        == if bucket_age(now, other) < age + 1 {
                        0
                    } else {
                        before.buckets[other]
                    } by {
                        assert(was[other] == was[other]);
                        if other == index {
                            assert(bucket_age(now, other) == age);
                        } else {
                            assert(bucket_age(now, other) != age);
                        }
                    }
                }
                age = age + 1;
            }
        }
        proof {
            assert forall|index: int| 0 <= index < 64 implies self.buffer@[index] == swept(
                before,
                now,
            )[index] by {
                let a = bucket_age(now, index);
                if a < age {
                    assert(!counts(before, now, a));
                } else {
                    assert(counts(before, now, age as int));
                    assert(counts(before, now, a)) by (nonlinear_arith)
                        requires
                            counts(before, now, age as int),
                            age <= a,
                    ;
                }
            }
            assert(self.buffer@ =~= swept(before, now));
            assert(bucket_index(now, 0) == current);
        }
        let bucket: u32 = self.buffer[current];
        self.buffer.set(current, bucket.wrapping_add(count));
        self.last_update = now;
    }

    /// Counts one event.
    pub fn inc(&mut self, now: u64)
        requires
            old(self).wf(),
        ensures
            final(self).wf(),
            final(self)@ == added(old(self)@, now, 1),
    {
        self.add(now, 1);
    }

    /// The number of events in the window that ends at `now`.
    pub fn get(&self, now: u64) -> (count: u32)
        requires
            self.wf(),
            total(self@, now, 64) <= u32::MAX,
        ensures
            count == total(self@, now, 64),
    {
        let current: usize = ((now / BUCKET_LENGTH) % 64) as usize;
        let mut sum: u32 = 0;
        let mut age: usize = 0;
        while age < BUCKET_NUM
            invariant
                self.wf(),
                age <= 64,
                current == now as int / BUCKET_LENGTH as int % 64,
                sum == total(self@, now, age as nat),
                total(self@, now, 64) <= u32::MAX,
            decreases 64 - age,
        {
            proof {
                lemma_total_grows(self@, now, (age + 1) as nat, 64);
            }
            if bucket_counts(self.last_update, now, age) {
                let index: usize = (current + BUCKET_NUM - age) % BUCKET_NUM;
                assert(index == bucket_index(now, age as int));
                sum = sum + self.buffer[index];
            }
            age = age + 1;
        }
        sum
    }
}

impl TimedCounter {
    /// The number of events in the window that ends at `now`; nothing where there are too
    /// many to count.
    pub fn checked_get(&self, now: u64) -> (count: Option<u32>)
        requires
            self.wf(),
        ensures
            match count {
                Some(count) => count == total(self@, now, 64),
                None => total(self@, now, 64) > u32::MAX,
            },
    {
        let current: usize = ((now / BUCKET_LENGTH) % 64) as usize;
        let mut sum: u64 = 0;
        let mut age: usize = 0;
        while age < BUCKET_NUM
            invariant
                self.wf(),
                age <= 64,
                current == now as int / BUCKET_LENGTH as int % 64,
                sum == total(self@, now, age as nat),
                sum <= age * 0xffff_ffff,
            decreases 64 - age,
        {
            if bucket_counts(self.last_update, now, age) {
                let index: usize = (current + BUCKET_NUM - age) % BUCKET_NUM;
                assert(index == bucket_index(now, age as int));
                sum = sum + self.buffer[index] as u64;
            }
            age = age + 1;
        }
        if sum <= u32::MAX as u64 {
            Some(sum as u32)
        } else {
            None
        }
    }
}

fn bucket_counts(last_update: u64, now: u64, age: usize) -> (yes: bool)
    requires
        age < 64,
    ensures
        yes == (bucket_start(now) <= last_update + age as int * BUCKET_LENGTH),
{
    let start: u64 = now - now % BUCKET_LENGTH;
    match last_update.checked_add(age as u64 * BUCKET_LENGTH) {
        Some(end) => start <= end,
        None => true,
    }
}

proof fn lemma_total_grows(s: CounterState, now: u64, n: nat, m: nat)
    requires
        n <= m,
    ensures
        total(s, now, n) <= total(s, now, m),
    decreases m,
{
    if n < m {
        lemma_total_grows(s, now, n, (m - 1) as nat);
    }
}

proof fn lemma_total_added(s: CounterState, now: u64, count: u32, n: nat)
    requires
        s.buckets.len() == 64,
        n <= 64,
        n > 0,
        total(s, now, 64) + count <= u32::MAX,
    ensures
        total(added(s, now, count), now, n) == total(s, now, n) + count,
    decreases n,
{
    let t = added(s, now, count);
    let age = n - 1;
    let index = bucket_index(now, age);
    lemma_total_grows(s, now, n, 64);
    assert(bucket_age(now, index) == age);
    assert(age * BUCKET_LENGTH >= 0) by (nonlinear_arith)
        requires
            age >= 0,
    ;
    assert(counts(t, now, age));
    if n > 1 {
        lemma_total_added(s, now, count, (n - 1) as nat);
        assert(index != bucket_index(now, 0));
        assert(t.buckets[index] == swept(s, now)[index]);
    } else {
        assert(total(s, now, 0) == 0);
        assert(total(t, now, 0) == 0);
        lemma_total_grows(s, now, 1, 64);
    }
}

/// What has just been counted shows at once, on top of what was there.
pub proof fn law_events_are_counted(s: CounterState, now: u64, count: u32)
    requires
        s.buckets.len() == 64,
        total(s, now, 64) + count <= u32::MAX,
    ensures
        total(added(s, now, count), now, 64) == total(s, now, 64) + count,
{
    lemma_total_added(s, now, count, 64);
}

/// Once a window and a bucket have passed since the last event, nothing is counted any more.
pub proof fn law_events_are_forgotten(s: CounterState, now: u64, n: nat)
    requires
        n <= 64,
        now >= s.last_update + WINDOW_NANOS + BUCKET_LENGTH,
    ensures
        total(s, now, n) == 0,
    decreases n,
{
    if n > 0 {
        law_events_are_forgotten(s, now, (n - 1) as nat);
        let age = n - 1;
        assert(age * BUCKET_LENGTH <= 63 * BUCKET_LENGTH) by (nonlinear_arith)
            requires
                age <= 63,
        ;
        assert(!counts(s, now, age));
    }
}

// ---------------------------------------------------------------------------
// Over time
// ---------------------------------------------------------------------------

/// The number of the bucket that a time lies in.
pub open spec fn bucket_of(time: u64) -> int {
    time as int / BUCKET_LENGTH as int
}

/// A counter that was made at `start`, after these additions.
pub open spec fn counter_history(start: u64, adds: Seq<(u64, u32)>) -> CounterState
    decreases adds.len(),
{
    if adds.len() == 0 {
        CounterState { buckets: Seq::new(64, |i: int| 0u32), last_update: start }
    } else {
        added(counter_history(start, adds.drop_last()), adds.last().0, adds.last().1)
    }
}

/// The additions come one after the other, from `start` up to `end`.
pub open spec fn in_time(start: u64, adds: Seq<(u64, u32)>, end: u64) -> bool
    decreases adds.len(),
{
    if adds.len() == 0 {
        start <= end
    } else {
        adds.last().0 <= end && in_time(start, adds.drop_last(), adds.last().0)
    }
}

/// What has been added in the `n` buckets that end with bucket `last`.
pub open spec fn added_within(adds: Seq<(u64, u32)>, last: int, n: int) -> nat
    decreases adds.len(),
{
    if adds.len() == 0 {
        0
    } else {
        let before = added_within(adds.drop_last(), last, n);
        if last - n < bucket_of(adds.last().0) <= last {
            before + adds.last().1 as nat
        } else {
            before
        }
    }
}

/// Everything that has been added.
pub open spec fn added_in_all(adds: Seq<(u64, u32)>) -> nat
    decreases adds.len(),
{
    if adds.len() == 0 {
        0
    } else {
        added_in_all(adds.drop_last()) + adds.last().1 as nat
    }
}

/// One bucket more.
proof fn lemma_within_step(adds: Seq<(u64, u32)>, last: int, n: int)
    requires
        n >= 0,
    ensures
        added_within(adds, last, n + 1) == added_within(adds, last, n) + added_within(
            adds,
            last - n,
            1,
        ),
        added_within(adds, last, 0) == 0,
        added_within(adds, last, n) <= added_in_all(adds),
    decreases adds.len(),
{
    if adds.len() > 0 {
        lemma_within_step(adds.drop_last(), last, n);
    }
}

/// Nothing has been added after the last addition.
proof fn lemma_nothing_later(start: u64, adds: Seq<(u64, u32)>, end: u64, bucket: int)
    requires
        in_time(start, adds, end),
        bucket > bucket_of(end),
    ensures
        added_within(adds, bucket, 1) == 0,
    decreases adds.len(),
{
    if adds.len() > 0 {
        lemma_nothing_later(start, adds.drop_last(), adds.last().0, bucket);
    }
}

/// The buckets hold what has been added in their time.
pub open spec fn holds_history(s: CounterState, adds: Seq<(u64, u32)>) -> bool {
    &&& s.buckets.len() == 64
    &&& forall|b: int|
        bucket_of(s.last_update) - 64 < b <= bucket_of(s.last_update) ==> s.buckets[b % 64]
            == #[trigger] added_within(adds, b, 1)
}

/// A bucket counts if it is not newer than the last addition.
proof fn lemma_counts(s: CounterState, now: u64, age: int)
    requires
        0 <= age < 64,
    ensures
        counts(s, now, age) <==> bucket_of(now) - age <= bucket_of(s.last_update),
        bucket_index(now, age) == (bucket_of(now) - age) % 64,
        bucket_age(now, bucket_index(now, age)) == age,
{
}

/// The last addition, and that all others come before it.
proof fn lemma_history(start: u64, adds: Seq<(u64, u32)>, end: u64)
    requires
        in_time(start, adds, end),
        added_in_all(adds) <= u32::MAX,
    ensures
        holds_history(counter_history(start, adds), adds),
        start <= counter_history(start, adds).last_update <= end,
        in_time(start, adds, counter_history(start, adds).last_update),
    decreases adds.len(),
{
    let t = counter_history(start, adds);
    if adds.len() == 0 {
        assert forall|b: int|
            bucket_of(t.last_update) - 64 < b <= bucket_of(t.last_update) implies t.buckets[b % 64]
            == #[trigger] added_within(adds, b, 1) by {}
    } else {
        let front = adds.drop_last();
        let (now, count) = adds.last();
        let s = counter_history(start, front);
        lemma_history(start, front, now);
        let here = bucket_of(now);
        assert forall|b: int| here - 64 < b <= here implies t.buckets[b % 64]
            == #[trigger] added_within(adds, b, 1) by {
            let age = here - b;
            lemma_counts(s, now, age);
            lemma_counts(s, now, 0);
            assert(bucket_index(now, age) == b % 64);
            assert(swept(s, now)[b % 64] == added_within(front, b, 1)) by {
                if b <= bucket_of(s.last_update) {
                    assert(s.buckets[b % 64] == added_within(front, b, 1));
                } else {
                    lemma_nothing_later(start, front, s.last_update, b);
                }
            }
            lemma_within_step(front, b, 1);
        }
    }
}

proof fn lemma_total_of_history(
    s: CounterState,
    start: u64,
    adds: Seq<(u64, u32)>,
    now: u64,
    n: nat,
)
    requires
        n <= 64,
        s.last_update <= now,
        holds_history(s, adds),
        in_time(start, adds, s.last_update),
    ensures
        total(s, now, n) == added_within(adds, bucket_of(now), n as int),
    decreases n,
{
    lemma_within_step(adds, bucket_of(now), 0);
    if n > 0 {
        let age = n - 1;
        let b = bucket_of(now) - age;
        lemma_total_of_history(s, start, adds, now, (n - 1) as nat);
        lemma_within_step(adds, bucket_of(now), age);
        lemma_counts(s, now, age);
        if b <= bucket_of(s.last_update) {
            assert(s.buckets[b % 64] == added_within(adds, b, 1));
        } else {
            lemma_nothing_later(start, adds, s.last_update, b);
        }
    }
}

/// A counter shows exactly what has been added in the bucket of the present and the 63
/// buckets before it.
pub proof fn law_window_is_counted(start: u64, adds: Seq<(u64, u32)>, now: u64)
    requires
        in_time(start, adds, now),
        added_in_all(adds) <= u32::MAX,
    ensures
        total(counter_history(start, adds), now, 64) == added_within(adds, bucket_of(now), 64),
{
    lemma_history(start, adds, now);
    lemma_total_of_history(counter_history(start, adds), start, adds, now, 64);
}

} // verus!
