//! How long a failed delivery waits before its next attempt, and after how
//! many failed attempts it is given up.

use vstd::prelude::*;

verus! {

/// The base doubled the given number of times.
pub open spec fn doubled(base: nat, times: nat) -> nat
    decreases times,
{
    if times == 0 {
        base
    } else {
        2 * doubled(base, (times - 1) as nat)
    }
}

/// Doubling more often never gives less.
pub proof fn lemma_doubled_grows(base: nat, fewer: nat, more: nat)
    requires
        fewer <= more,
    ensures
        doubled(base, fewer) <= doubled(base, more),
    decreases more,
{
    if fewer < more {
        lemma_doubled_grows(base, fewer, (more - 1) as nat);
    }
}

/// A capped exponential backoff with a ceiling on the number of attempts.
#[derive(Debug, PartialEq, Eq, Structural, Clone, Copy)]
pub struct RetryPolicy {
    /// The wait after the first failed attempt, in seconds.
    pub base_delay_secs: u64,
    /// No wait is longer than this, in seconds.
    pub max_delay_secs: u64,
    /// A delivery is given up once this many attempts have failed.
    pub max_attempts: u32,
}

impl RetryPolicy {
    /// The wait after the given number of failed attempts: the base delay
    /// after the first, twice as long after each further one, and never more
    /// than the cap.
    pub open spec fn delay_after(self, failures: nat) -> nat {
        if failures == 0 {
            0
        } else {
            let uncapped = doubled(self.base_delay_secs as nat, (failures - 1) as nat);
            if uncapped <= self.max_delay_secs {
                uncapped
            } else {
                self.max_delay_secs as nat
            }
        }
    }

    /// Whether a delivery with this many failed attempts is given up.
    pub open spec fn gives_up_after(self, failures: nat) -> bool {
        failures >= self.max_attempts
    }

    /// A policy with the three settings given.
    pub fn new(base_delay_secs: u64, max_delay_secs: u64, max_attempts: u32) -> (policy: Self)
        ensures
            policy == (RetryPolicy { base_delay_secs, max_delay_secs, max_attempts }),
    {
        RetryPolicy { base_delay_secs, max_delay_secs, max_attempts }
    }

    /// The wait, in seconds, after the given number of failed attempts.
    pub fn backoff_secs(&self, failures: u32) -> (delay: u64)
        ensures
            delay == self.delay_after(failures as nat),
            delay <= self.max_delay_secs,
    {
        if failures == 0 || self.base_delay_secs == 0 {
            proof {
                if failures > 0 {
                    lemma_doubled_zero((failures - 1) as nat);
                }
            }
            return 0;
        }
        let cap: u64 = self.max_delay_secs;
        let mut delay: u64 = self.base_delay_secs;
        let mut doublings: u32 = 0;
        while doublings < failures - 1 && delay <= cap
            invariant
                failures >= 1,
                doublings <= failures - 1,
                cap == self.max_delay_secs,
                delay == doubled(self.base_delay_secs as nat, doublings as nat),
            decreases failures - 1 - doublings,
        {
            if delay > cap - delay {
                proof {
                    lemma_doubled_grows(
                        self.base_delay_secs as nat,
                        (doublings + 1) as nat,
                        (failures - 1) as nat,
                    );
                }
                return cap;
            }
            delay = delay + delay;
            doublings = doublings + 1;
        }
        proof {
            lemma_doubled_grows(
                self.base_delay_secs as nat,
                doublings as nat,
                (failures - 1) as nat,
            );
        }
        if delay <= cap {
            delay
        } else {
            cap
        }
    }

    /// Whether a delivery with this many failed attempts is given up.
    pub fn is_exhausted(&self, failures: u32) -> (exhausted: bool)
        ensures
            exhausted == self.gives_up_after(failures as nat),
    {
        failures >= self.max_attempts
    }
}

impl Default for RetryPolicy {
    /// One second after the first failure, at most one minute, ten attempts.
    fn default() -> (policy: Self)
        ensures
            policy == (RetryPolicy { base_delay_secs: 1, max_delay_secs: 60, max_attempts: 10 }),
    {
        RetryPolicy { base_delay_secs: 1, max_delay_secs: 60, max_attempts: 10 }
    }
}

/// Doubling zero gives zero.
pub proof fn lemma_doubled_zero(times: nat)
    ensures
        doubled(0, times) == 0,
    decreases times,
{
    if times > 0 {
        lemma_doubled_zero((times - 1) as nat);
    }
}

} // verus!
