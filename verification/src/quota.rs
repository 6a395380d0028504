//! Quota ledger: per-tenant request counting over a rolling window. The
//! counter itself lives in an external atomic store; this module holds the
//! policy and every admit/reject decision, each as a pure function of the
//! store's reported count.

use vstd::prelude::*;
use vstd::string::*;

use crate::text::str_eq;

verus! {

/// Why a request was not admitted by the quota stage.
#[derive(Debug, Clone)]
pub enum QuotaError {
    /// The tenant's count passed its limit; `current` is informational.
    Exceeded { limit: u32, current: u32 },
    /// The counter store could not be reached or failed; distinct from
    /// exhaustion because it is the server's fault, not the caller's.
    Backend(String),
}

/// Lookup in an override list where a later entry for the same tenant
/// wins, as the last setting read from configuration takes effect.
pub open spec fn spec_lookup(s: Seq<(String, u32)>, key: Seq<char>) -> Option<u32>
    decreases s.len(),
{
    if s.len() == 0 {
        None
    } else if s.last().0@ == key {
        Some(s.last().1)
    } else {
        spec_lookup(s.drop_last(), key)
    }
}

/// The quota policy: a default limit, the window length, and per-tenant
/// overrides. Holds no counter state of its own; counts live in the
/// external store so concurrent gateway instances share one truth.
pub struct QuotaManager {
    pub default_quota: u32,
    pub window_secs: u64,
    pub overrides: Vec<(String, u32)>,
}

/// Whether a post-increment count admits a request under a limit.
pub open spec fn quota_allows(limit: u32, count: i64) -> bool {
    limit > 0 && count <= limit
}

/// A tenant with a zero limit is never admitted, whatever count the
/// store reports: the zero limit is the policy switch that disables a
/// tenant outright.
pub proof fn lemma_zero_limit_never_admits(count: i64)
    ensures
        !quota_allows(0, count),
{
}

impl QuotaManager {
    pub open spec fn spec_limit_for(&self, tenant: Seq<char>) -> u32 {
        match spec_lookup(self.overrides@, tenant) {
            Some(l) => l,
            None => self.default_quota,
        }
    }

    pub fn new(default_quota: u32, window_secs: u64, overrides: Vec<(String, u32)>) -> (m: Self)
        ensures
            m.default_quota == default_quota,
            m.window_secs == window_secs,
            m.overrides == overrides,
    {
        QuotaManager { default_quota, window_secs, overrides }
    }

    /// The limit that applies to a tenant: its override when one is set,
    /// the default otherwise.
    pub fn limit_for(&self, tenant: &str) -> (l: u32)
        ensures
            l == self.spec_limit_for(tenant@),
    {
        let mut res: Option<u32> = None;
        let mut idx: usize = 0;
        while idx < self.overrides.len()
            invariant
                0 <= idx <= self.overrides@.len(),
                res == spec_lookup(self.overrides@.take(idx as int), tenant@),
            decreases self.overrides@.len() - idx,
        {
            let pair = &self.overrides[idx];
            proof {
                assert(self.overrides@.take(idx as int + 1).last() == self.overrides@[idx as int]);
                assert(self.overrides@.take(idx as int + 1).drop_last() =~= self.overrides@.take(
                    idx as int,
                ));
            }
            if str_eq(pair.0.as_str(), tenant) {
                res = Some(pair.1);
            }
            idx = idx + 1;
        }
        proof {
            assert(self.overrides@.take(self.overrides@.len() as int) =~= self.overrides@);
        }
        match res {
            Some(l) => l,
            None => self.default_quota,
        }
    }

    /// The first quota decision, taken before the store is touched:
    /// resolve the tenant's limit, and reject outright when it is zero.
    pub fn pre_check(&self, tenant: &str) -> (r: Result<u32, QuotaError>)
        ensures
            match r {
                Ok(limit) => limit == self.spec_limit_for(tenant@) && limit > 0,
                Err(e) => self.spec_limit_for(tenant@) == 0 && e matches QuotaError::Exceeded {
                    limit: 0u32,
                    current: 0u32,
                },
            },
    {
        let limit = self.limit_for(tenant);
        if limit == 0 {
            Err(QuotaError::Exceeded { limit, current: limit })
        } else {
            Ok(limit)
        }
    }
}

/// The HTTP status a quota failure maps to: exhaustion is the caller's
/// doing and answered with too-many-requests; a backend fault is the
/// server's and answered as an internal error.
pub fn response_status(e: &QuotaError) -> (s: u16)
    ensures
        (e matches QuotaError::Exceeded { .. }) ==> s == 429,
        (e matches QuotaError::Backend(..)) ==> s == 500,
{
    match e {
        QuotaError::Exceeded { .. } => 429,
        QuotaError::Backend(..) => 500,
    }
}

/// The key under which a tenant's window count is stored.
pub fn quota_key(tenant: &str) -> (k: String)
    ensures
        k@ == "quota:"@ + tenant@,
{
    let mut k = String::from_str("quota:");
    k.append(tenant);
    k
}

/// The counter's expiry is set only on the first increment of a fresh
/// window, when the store reports a post-increment count of one.
pub fn should_set_expiry(count: i64) -> (b: bool)
    ensures
        b == (count == 1),
{
    count == 1
}

/// The second quota decision, taken on the outcome of the store's atomic
/// increment: a store failure is a backend fault, a count above the
/// limit is exhaustion (with the count clamped into range for report),
/// anything else admits the request.
pub fn apply_increment_outcome(limit: u32, outcome: &Result<i64, String>) -> (r: Result<
    (),
    QuotaError,
>)
    ensures
        match r {
            Ok(()) => outcome matches Ok(c) && *c <= limit,
            Err(e) => match e {
                QuotaError::Exceeded { limit: l, current } => {
                    &&& outcome matches Ok(c) && *c > limit
                    &&& l == limit
                    &&& current as int == if outcome->Ok_0 > u32::MAX as int {
                        u32::MAX as int
                    } else {
                        outcome->Ok_0 as int
                    }
                },
                QuotaError::Backend(b) => outcome matches Err(m) && b@ == m@,
            },
        },
        limit > 0 ==> ((r matches Ok(())) <==> (outcome matches Ok(c) && quota_allows(limit, *c))),
{
    match outcome {
        Err(m) => Err(QuotaError::Backend(m.clone())),
        Ok(c) => {
            let c = *c;
            if c > limit as i64 {
                let current: u32 = if c > u32::MAX as i64 {
                    u32::MAX
                } else {
                    c as u32
                };
                Err(QuotaError::Exceeded { limit, current })
            } else {
                Ok(())
            }
        },
    }
}

} // verus!
