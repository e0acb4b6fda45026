//! The clock of a core.
use vstd::prelude::*;

verus! {

/// Milliseconds of a time since an epoch, given in seconds and nanoseconds. The count wraps
/// at 2^64.
pub open spec fn millis(secs: u64, subsec_nanos: u32) -> u64 {
    ((secs * 1000 + subsec_nanos as int / 1_000_000) % 0x1_0000_0000_0000_0000) as u64
}

/// The time of the wall clock in milliseconds.
pub fn now_millis(secs: u64, subsec_nanos: u32) -> (now: u64)
    requires
        subsec_nanos < 1_000_000_000,
    ensures
        now == millis(secs, subsec_nanos),
{
    let total: u128 = secs as u128 * 1000 + subsec_nanos as u128 / 1_000_000;
    (total % 0x1_0000_0000_0000_0000u128) as u64
}

/// When a core was started, by the wall clock and by a steady one.
#[derive(Debug, Clone, Copy, PartialEq, Eq, Structural)]
pub struct CoreClock {
    boot_time_ms: u64,
    started_at_ms: u64,
}

impl CoreClock {
    pub closed spec fn boot(&self) -> u64 {
        self.boot_time_ms
    }

    pub closed spec fn started(&self) -> u64 {
        self.started_at_ms
    }

    /// A clock that starts at `boot_time_ms` of the wall clock, when the steady clock shows
    /// `started_at_ms`.
    pub fn new(boot_time_ms: u64, started_at_ms: u64) -> (clock: Self)
        ensures
            clock.boot() == boot_time_ms,
            clock.started() == started_at_ms,
    {
        Self { boot_time_ms, started_at_ms }
    }

    pub fn boot_time_ms(&self) -> (time: u64)
        ensures
            time == self.boot(),
    {
        self.boot_time_ms
    }

    /// How long the core has run, when the steady clock shows `now_ms`.
    pub fn elapsed_ms(&self, now_ms: u64) -> (elapsed: u64)
        ensures
            elapsed == if now_ms >= self.started() {
                now_ms - self.started()
            } else {
                0
            },
    {
        now_ms.saturating_sub(self.started_at_ms)
    }
}

/// The elapsed time of a clock does not run backwards while the steady clock does not.
pub proof fn law_elapsed_is_monotonic(clock: CoreClock, a_ms: u64, b_ms: u64, a: u64, b: u64)
    requires
        a_ms <= b_ms,
        a == if a_ms >= clock.started() {
            a_ms - clock.started()
        } else {
            0
        },
        b == if b_ms >= clock.started() {
            b_ms - clock.started()
        } else {
            0
        },
    ensures
        a <= b,
{
}

} // verus!
