use vstd::prelude::*;
use vstd::arithmetic::power::lemma_pow0;
use vstd::arithmetic::power2::{pow2, lemma_pow2_pos, lemma_pow2_unfold};

verus! {

/// Every two successive grants are at least `interval` apart.
pub open spec fn spaced(grants: Seq<int>, interval: int) -> bool {
    forall|i: int| 0 < i < grants.len() ==> #[trigger] grants[i] >= grants[i - 1] + interval
}

/// Spaces out calls to the directory service: each call is granted a start
/// time at least `min_interval_ms` after the previous grant.
pub struct RateLimiter {
    pub min_interval_ms: u64,
    pub last_grant_ms: Option<u64>,
    /// Every start time granted so far, in order.
    pub grants: Ghost<Seq<int>>,
}

impl RateLimiter {
    pub open spec fn wf(&self) -> bool {
        &&& spaced(self.grants@, self.min_interval_ms as int)
        &&& self.grants@.len() == 0 <==> self.last_grant_ms is None
        &&& self.grants@.len() > 0 ==> self.last_grant_ms->0 as int == self.grants@.last()
    }

    pub fn new(min_interval_ms: u64) -> (r: RateLimiter)
        ensures
            r.wf(),
            r.min_interval_ms == min_interval_ms,
            r.grants@.len() == 0,
    {
        RateLimiter { min_interval_ms, last_grant_ms: None, grants: Ghost(Seq::empty()) }
    }

    /// Grants a call asked for at `now_ms` and returns how long the caller
    /// has to wait before making it: nothing for the first call, else until
    /// `min_interval_ms` after the previous grant. A grant that would pass
    /// the clock's range is refused with `None`, and nothing is recorded.
    pub fn acquire(&mut self, now_ms: u64) -> (wait_ms: Option<u64>)
        requires
            old(self).wf(),
        ensures
            final(self).wf(),
            final(self).min_interval_ms == old(self).min_interval_ms,
            match old(self).last_grant_ms {
                None => wait_ms == Some(0u64) && final(self).grants@ == seq![now_ms as int],
                Some(last) => {
                    let earliest = last + old(self).min_interval_ms;
                    if earliest > u64::MAX {
                        wait_ms is None && final(self).grants@ == old(self).grants@
                            && final(self).last_grant_ms == old(self).last_grant_ms
                    } else {
                        let grant = if earliest > now_ms { earliest } else { now_ms as int };
                        wait_ms == Some((grant - now_ms) as u64)
                            && final(self).grants@ == old(self).grants@.push(grant)
                    }
                },
            },
    {
        match self.last_grant_ms {
            None => {
                self.last_grant_ms = Some(now_ms);
                let ghost first = seq![now_ms as int];
                self.grants = Ghost(first);
                Some(0)
            },
            Some(last) => {
                if last > u64::MAX - self.min_interval_ms {
                    return None;
                }
                let earliest = last + self.min_interval_ms;
                let grant = if earliest > now_ms {
                    earliest
                } else {
                    now_ms
                };
                self.last_grant_ms = Some(grant);
                let ghost g0 = self.grants@;
                let ghost g1 = g0.push(grant as int);
                self.grants = Ghost(g1);
                proof {
                    assert(spaced(self.grants@, self.min_interval_ms as int)) by {
                        assert forall|i: int| 0 < i < self.grants@.len() implies #[trigger] self.grants@[i]
                            >= self.grants@[i - 1] + self.min_interval_ms by {
                            if i < g0.len() {
                                assert(self.grants@[i] == g0[i] && self.grants@[i - 1] == g0[i - 1]);
                            }
                        }
                    }
                }
                Some(grant - now_ms)
            },
        }
    }
}

/// How many times a throttled call is tried again before it fails.
pub const MAX_RETRIES: u32 = 5;

/// Pause before retry `attempt` (from 0) of a throttled call: `base_ms`
/// doubled once per earlier retry, or `None` once the retries are used up or
/// the pause would not fit the clock.
pub fn backoff_ms(base_ms: u64, attempt: u32) -> (r: Option<u64>)
    ensures
        attempt >= MAX_RETRIES ==> r is None,
        attempt < MAX_RETRIES && base_ms * pow2(attempt as nat) <= u64::MAX ==> r == Some(
            (base_ms * pow2(attempt as nat)) as u64,
        ),
        attempt < MAX_RETRIES && base_ms * pow2(attempt as nat) > u64::MAX ==> r is None,
{
    if attempt >= MAX_RETRIES {
        return None;
    }
    let mut pause: u64 = base_ms;
    let mut i: u32 = 0;
    proof {
        lemma_pow0(2);
        assert(pow2(0nat) == 1);
        assert(base_ms * pow2(0nat) == base_ms);
    }
    while i < attempt
        invariant
            i <= attempt,
            pause == base_ms * pow2(i as nat),
        decreases attempt - i,
    {
        proof {
            lemma_pow2_unfold((i + 1) as nat);
            assert(base_ms * pow2((i + 1) as nat) == 2 * (base_ms * pow2(i as nat))) by (nonlinear_arith)
                requires
                    pow2((i + 1) as nat) == 2 * pow2(i as nat),
            ;
        }
        if pause > u64::MAX / 2 {
            proof {
                lemma_pow2_grows(base_ms, i as nat, attempt as nat);
            }
            return None;
        }
        pause = pause * 2;
        i = i + 1;
    }
    Some(pause)
}

proof fn lemma_pow2_grows(base: u64, i: nat, n: nat)
    requires
        i < n,
        base * pow2(i) > u64::MAX / 2,
    ensures
        base * pow2(n) > u64::MAX,
    decreases n - i,
{
    lemma_pow2_pos(i);
    lemma_pow2_unfold((i + 1) as nat);
    assert(base * pow2((i + 1) as nat) == 2 * (base * pow2(i))) by (nonlinear_arith)
        requires
            pow2((i + 1) as nat) == 2 * pow2(i),
    ;
    if i + 1 < n {
        lemma_pow2_grows(base, i + 1, n);
    }
}

proof fn lemma_spaced_prefix(grants: Seq<int>, interval: int, n: int)
    requires
        spaced(grants, interval),
        1 <= n <= grants.len(),
    ensures
        grants[n - 1] - grants[0] >= (n - 1) * interval,
    decreases n,
{
    if n > 1 {
        lemma_spaced_prefix(grants, interval, n - 1);
        assert(grants[n - 1] >= grants[n - 2] + interval);
        assert((n - 1) * interval == (n - 2) * interval + interval) by (nonlinear_arith);
    } else {
        assert((n - 1) * interval == 0) by (nonlinear_arith)
            requires
                n == 1,
        ;
    }
}

/// After `m` calls through a limiter, the last start time is at least
/// `(m - 1)` intervals after the first.
pub proof fn lemma_calls_span_intervals(limiter: RateLimiter)
    requires
        limiter.wf(),
        limiter.grants@.len() > 0,
    ensures
        limiter.grants@.last() - limiter.grants@[0] >= (limiter.grants@.len() - 1)
            * limiter.min_interval_ms,
{
    lemma_spaced_prefix(limiter.grants@, limiter.min_interval_ms as int, limiter.grants@.len() as int);
}

} // verus!
