//! How often a delivery is retried, and how long it waits in between.

use vstd::prelude::*;

verus! {

/// Retry settings of the delivery worker.
#[derive(Copy, Clone, Debug, PartialEq, Eq, Structural)]
pub struct RetryPolicy {
    /// A delivery is abandoned once this many attempts have failed.
    pub max_attempts: u32,
    /// The wait after the first failed attempt.
    pub base_delay: u64,
    /// No wait is longer than this.
    pub max_delay: u64,
}

/// `base` doubled `times` times.
pub open spec fn doubled(base: int, times: nat) -> int
    decreases times,
{
    if times == 0 {
        base
    } else {
        2 * doubled(base, (times - 1) as nat)
    }
}

/// The wait before the next attempt once `failures` attempts have failed: the
/// base delay, doubled for every failure after the first, at most the largest
/// delay and at least one tick.
pub open spec fn backoff_delay(policy: RetryPolicy, failures: u32) -> int {
    let times = if failures <= 1 {
        0nat
    } else {
        (failures - 1) as nat
    };
    let raw = doubled(policy.base_delay as int, times);
    let capped = if raw > policy.max_delay {
        policy.max_delay as int
    } else {
        raw
    };
    if capped < 1 {
        1
    } else {
        capped
    }
}

/// Whether a delivery is abandoned when the attempt after `attempts` earlier
/// failures fails too.
pub open spec fn gives_up(policy: RetryPolicy, attempts: u32) -> bool {
    attempts + 1 >= policy.max_attempts
}

/// Doubling a non-negative number more often never makes it smaller, and
/// doubling zero leaves zero.
pub proof fn lemma_doubled_grows(base: int, fewer: nat, more: nat)
    requires
        0 <= base,
        fewer <= more,
    ensures
        base <= doubled(base, fewer) <= doubled(base, more),
        base == 0 ==> doubled(base, more) == 0,
    decreases more,
{
    if more > 0 {
        if fewer == more {
            lemma_doubled_grows(base, (fewer - 1) as nat, (more - 1) as nat);
        } else {
            lemma_doubled_grows(base, fewer, (more - 1) as nat);
        }
    }
}

/// A wait is at least one tick and at most the largest delay, or one tick
/// where the largest delay is shorter than that.
pub proof fn lemma_backoff_is_bounded(policy: RetryPolicy, failures: u32)
    ensures
        1 <= backoff_delay(policy, failures),
        backoff_delay(policy, failures) <= policy.max_delay || backoff_delay(policy, failures)
            == 1,
{
}

impl RetryPolicy {
    /// Whether a delivery that has failed `attempts` times before, and has
    /// just failed again, is abandoned.
    pub fn exhausted_after(&self, attempts: u32) -> (out: bool)
        ensures
            out == gives_up(*self, attempts),
    {
        attempts >= self.max_attempts || attempts + 1 >= self.max_attempts
    }

    /// The wait before the next attempt once `failures` attempts have failed.
    pub fn delay_after(&self, failures: u32) -> (delay: u64)
        ensures
            delay == backoff_delay(*self, failures),
            delay >= 1,
    {
        let times: u32 = if failures <= 1 {
            0
        } else {
            failures - 1
        };
        let mut delay: u64 = if self.base_delay > self.max_delay {
            self.max_delay
        } else {
            self.base_delay
        };
        let mut i: u32 = 0;
        while i < times && 0 < delay && delay < self.max_delay
            invariant
                i <= times,
                delay <= self.max_delay,
                delay == if doubled(self.base_delay as int, i as nat) > self.max_delay {
                    self.max_delay as int
                } else {
                    doubled(self.base_delay as int, i as nat)
                },
            decreases times - i,
        {
            delay = if delay > self.max_delay - delay {
                self.max_delay
            } else {
                delay + delay
            };
            i += 1;
        }
        proof {
            lemma_doubled_grows(self.base_delay as int, i as nat, times as nat);
        }
        if delay < 1 {
            1
        } else {
            delay
        }
    }
}

} // verus!
