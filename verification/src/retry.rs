//! Bounded retry with exponential backoff, and the law that holds of it:
//! an operation is attempted at most `max_attempts` times; the first
//! success wins; when every attempt fails, the last error surfaces.

use vstd::prelude::*;
use vstd::arithmetic::power2::pow2;
use vstd::arithmetic::power2::lemma_pow2_unfold;

verus! {

/// The policy values of one retried operation: how often to try, and the
/// bounds of the doubling backoff between attempts.
#[derive(Debug, Clone, Copy, PartialEq, Eq, Structural)]
pub struct RetryPolicy {
    pub max_attempts: usize,
    pub min_delay_ms: u64,
    pub max_delay_ms: u64,
}

impl RetryPolicy {
    pub open spec fn wf(self) -> bool {
        &&& self.max_attempts >= 1
        &&& self.min_delay_ms <= self.max_delay_ms
    }

    /// The defaults used throughout the downloader: 3 attempts, backoff
    /// from 100 milliseconds up to 5 seconds.
    pub fn standard() -> (p: RetryPolicy)
        ensures
            p.wf(),
            p.max_attempts == 3,
            p.min_delay_ms == 100,
            p.max_delay_ms == 5000,
    {
        RetryPolicy { max_attempts: 3, min_delay_ms: 100, max_delay_ms: 5000 }
    }

    /// The backoff after `failures` attempts have failed: the minimum
    /// delay doubled `failures - 1` times, capped at the maximum delay.
    pub open spec fn spec_delay(self, failures: int) -> int
        recommends
            failures >= 1,
    {
        if self.min_delay_ms * pow2((failures - 1) as nat) <= self.max_delay_ms {
            self.min_delay_ms * pow2((failures - 1) as nat)
        } else {
            self.max_delay_ms as int
        }
    }

    /// Milliseconds to wait before the next attempt, after `failures`
    /// failed attempts.
    pub fn delay_after(&self, failures: usize) -> (d: u64)
        requires
            self.wf(),
            failures >= 1,
        ensures
            d == self.spec_delay(failures as int),
    {
        let mut d: u64 = self.min_delay_ms;
        let mut i: usize = 1;
        proof {
            vstd::arithmetic::power2::lemma2_to64();
            assert(self.min_delay_ms * pow2(0) == self.min_delay_ms) by (nonlinear_arith)
                requires
                    pow2(0) == 1,
            ;
            assert(self.spec_delay(1) == self.min_delay_ms);
        }
        while i < failures
            invariant
                self.wf(),
                1 <= i <= failures,
                d == self.spec_delay(i as int),
                d <= self.max_delay_ms,
            decreases failures - i,
        {
            let ghost before = d as int;
            d = if d > self.max_delay_ms / 2 {
                self.max_delay_ms
            } else {
                2 * d
            };
            proof {
                lemma_pow2_unfold(i as nat);
                assert(self.min_delay_ms * pow2(i as nat) == 2 * (self.min_delay_ms * pow2(
                    (i - 1) as nat,
                ))) by (nonlinear_arith)
                    requires
                        pow2(i as nat) == 2 * pow2((i - 1) as nat),
                ;
            }
            i = i + 1;
        }
        d
    }
}

/// Which attempt, among the first `k`, is the first to succeed.
pub open spec fn first_ok_within<T, E>(outs: Seq<Result<T, E>>, k: int) -> Option<int>
    decreases k,
{
    if k <= 0 {
        None
    } else {
        match first_ok_within(outs, k - 1) {
            Some(i) => Some(i),
            None => if outs[k - 1] is Ok {
                Some(k - 1)
            } else {
                None
            },
        }
    }
}

proof fn lemma_first_ok_extend<T, E>(outs: Seq<Result<T, E>>, k: int, m: int)
    requires
        0 <= k <= m,
        first_ok_within(outs, k) is Some,
    ensures
        first_ok_within(outs, m) == first_ok_within(outs, k),
    decreases m - k,
{
    if m > k {
        lemma_first_ok_extend(outs, k, m - 1);
    }
}

/// Run one retried operation to its end, given the outcome each successive
/// attempt would produce. Law (bounded retry): at most `max_attempts`
/// outcomes are consumed; when some attempt among the first `max_attempts`
/// succeeds, the first such success is returned after exactly that many
/// attempts; when they all fail, the last error is returned after exactly
/// `max_attempts` attempts.
pub fn run_retry<T, E>(outcomes: Vec<Result<T, E>>, max_attempts: usize) -> (r: (
    Result<T, E>,
    usize,
))
    requires
        max_attempts >= 1,
        outcomes@.len() >= max_attempts,
    ensures
        1 <= r.1 <= max_attempts,
        (match first_ok_within(outcomes@, max_attempts as int) {
            Some(i) => r.0 == outcomes@[i] && r.1 == i + 1 && r.0 is Ok,
            None => r.0 == outcomes@[max_attempts - 1] && r.1 == max_attempts && r.0 is Err,
        }),
        forall|j: int| 0 <= j < r.1 - 1 ==> outcomes@[j] is Err,
{
    let ghost orig = outcomes@;
    let mut rest = outcomes;
    let mut attempt: usize = 0;
    loop
        invariant
            max_attempts >= 1,
            orig == outcomes@,
            orig.len() >= max_attempts,
            0 <= attempt < max_attempts,
            rest@ =~= orig.skip(attempt as int),
            first_ok_within(orig, attempt as int) is None,
            forall|j: int| 0 <= j < attempt ==> orig[j] is Err,
        decreases max_attempts - attempt,
    {
        let o = rest.remove(0);
        attempt = attempt + 1;
        proof {
            assert(o == orig[attempt - 1]);
        }
        if o.is_ok() {
            proof {
                assert(first_ok_within(orig, attempt as int) == Some(attempt - 1));
                lemma_first_ok_extend(orig, attempt as int, max_attempts as int);
            }
            return (o, attempt);
        }
        if attempt == max_attempts {
            return (o, attempt);
        }
        proof {
            assert(rest@ =~= orig.skip(attempt as int));
        }
    }
}

/// The running state of one retried operation: the policy, and how many
/// attempts have failed so far. The count never passes `max_attempts`.
#[derive(Debug, Clone, Copy)]
pub struct RetryState {
    pub policy: RetryPolicy,
    pub failures: usize,
}

impl RetryState {
    pub open spec fn wf(self) -> bool {
        &&& self.policy.wf()
        &&& self.failures <= self.policy.max_attempts
    }

    pub fn new(policy: RetryPolicy) -> (s: RetryState)
        requires
            policy.wf(),
        ensures
            s.wf(),
            s.policy == policy,
            s.failures == 0,
    {
        RetryState { policy, failures: 0 }
    }

    /// Whether another attempt may still be started.
    pub fn can_attempt(&self) -> (b: bool)
        ensures
            b == (self.failures < self.policy.max_attempts),
    {
        self.failures < self.policy.max_attempts
    }

    /// Record one failed attempt: the backoff to sleep before the next
    /// attempt, or `None` once the attempts are exhausted.
    pub fn on_failure(&mut self) -> (r: Option<u64>)
        requires
            old(self).wf(),
            old(self).failures < old(self).policy.max_attempts,
        ensures
            final(self).wf(),
            final(self).policy == old(self).policy,
            final(self).failures == old(self).failures + 1,
            r is Some <==> final(self).failures < final(self).policy.max_attempts,
            r is Some ==> r.unwrap() == old(self).policy.spec_delay(final(self).failures as int),
    {
        self.failures = self.failures + 1;
        if self.failures < self.policy.max_attempts {
            let p = self.policy;
            Some(p.delay_after(self.failures))
        } else {
            None
        }
    }
}

} // verus!
