//! Gateway configuration: the policy values the admission pipeline runs
//! on, the tenant-quota override parser, and the derivation of rate-limit
//! keys and tenant identities from request metadata.

use vstd::prelude::*;
use vstd::string::*;

verus! {

use crate::redact::{is_digit, digit_val, all_digits};
use crate::text::{chars_vec, chars_string, spec_trim, trim_window, find_from, find_char, vec_range};

/// Gateway configuration. Immutable after start; loaded from the
/// process environment by the surrounding binary.
pub struct AppConfig {
    pub listen_addr: String,
    pub openai_api_key: String,
    pub openai_base_url: Option<String>,
    pub rps: u32,
    pub burst: u32,
    pub redis_url: Option<String>,
    pub default_quota: u32,
    pub quota_window_secs: u64,
    pub tenant_quotas: Vec<(String, u32)>,
    pub timeout_secs: Option<u64>,
    pub max_concurrency: Option<usize>,
    pub otlp_endpoint: Option<String>,
    pub service_name: String,
}

pub fn default_rps() -> (r: u32)
    ensures
        r == 5,
{
    5
}

pub fn default_burst() -> (r: u32)
    ensures
        r == 10,
{
    10
}

pub fn default_quota() -> (r: u32)
    ensures
        r == 120,
{
    120
}

pub fn default_quota_window_secs() -> (r: u64)
    ensures
        r == 60,
{
    60
}

pub fn default_service_name() -> (r: String)
    ensures
        r@ == "secure-llm-gateway"@,
{
    String::from_str("secure-llm-gateway")
}

/// The numeric value of a digit string.
pub open spec fn digits_value(s: Seq<char>) -> int
    decreases s.len(),
{
    if s.len() == 0 {
        0
    } else {
        10 * digits_value(s.drop_last()) + digit_val(s.last())
    }
}

/// A quota value parses when it is a non-empty digit string whose value
/// fits in 32 bits.
pub open spec fn spec_parse_u32(s: Seq<char>) -> Option<u32> {
    if s.len() > 0 && all_digits(s) && digits_value(s) <= u32::MAX {
        Some(digits_value(s) as u32)
    } else {
        None
    }
}

proof fn lemma_digits_value_nonneg(s: Seq<char>)
    requires
        all_digits(s),
    ensures
        digits_value(s) >= 0,
    decreases s.len(),
{
    if s.len() > 0 {
        assert(all_digits(s.drop_last()));
        lemma_digits_value_nonneg(s.drop_last());
    }
}

proof fn lemma_digits_value_monotone(s: Seq<char>, i: int)
    requires
        all_digits(s),
        0 <= i <= s.len(),
    ensures
        digits_value(s.take(i)) <= digits_value(s),
    decreases s.len(),
{
    if i < s.len() {
        assert(all_digits(s.drop_last()));
        assert(s.take(i) =~= s.drop_last().take(i));
        lemma_digits_value_monotone(s.drop_last(), i);
        lemma_digits_value_nonneg(s.drop_last());
    } else {
        assert(s.take(i) =~= s);
    }
}

/// Parse the digits in the window `[lo, hi)` of `s` as a 32-bit value.
fn parse_u32_window(s: &Vec<char>, lo: usize, hi: usize) -> (r: Option<u32>)
    requires
        lo <= hi <= s@.len(),
    ensures
        r == spec_parse_u32(s@.subrange(lo as int, hi as int)),
{
    let ghost w = s@.subrange(lo as int, hi as int);
    if lo == hi {
        proof {
            assert(w.len() == 0);
        }
        return None;
    }
    let mut acc: u32 = 0;
    let mut p = lo;
    while p < hi
        invariant
            lo <= p <= hi <= s@.len(),
            w == s@.subrange(lo as int, hi as int),
            all_digits(w.take((p - lo) as int)),
            acc == digits_value(w.take((p - lo) as int)),
        decreases hi - p,
    {
        let c = s[p];
        proof {
            assert(w[(p - lo) as int] == s@[p as int]);
            assert(w.take((p - lo + 1) as int).drop_last() =~= w.take((p - lo) as int));
            assert(w.take((p - lo + 1) as int).last() == w[(p - lo) as int]);
        }
        if !('0' <= c && c <= '9') {
            proof {
                assert(!is_digit(w[(p - lo) as int]));
                assert(!all_digits(w));
            }
            return None;
        }
        let d: u32 = (c as u32) - ('0' as u32);
        if acc > (u32::MAX - d) / 10 {
            proof {
                assert(10 * acc + d > u32::MAX) by {
                    let m = (u32::MAX - d) as int;
                    assert(m == 10 * (m / 10) + (m % 10)) by {
                        vstd::arithmetic::div_mod::lemma_fundamental_div_mod(m, 10);
                    }
                    assert(acc >= m / 10 + 1);
                }
                assert(digits_value(w.take((p - lo + 1) as int)) > u32::MAX);
                if all_digits(w) {
                    lemma_digits_value_monotone(w, p - lo + 1);
                }
            }
            return None;
        }
        proof {
            assert(10 * acc + d <= u32::MAX) by {
                let m = (u32::MAX - d) as int;
                assert(m == 10 * (m / 10) + (m % 10)) by {
                    vstd::arithmetic::div_mod::lemma_fundamental_div_mod(m, 10);
                }
            }
        }
        acc = acc * 10 + d;
        p = p + 1;
    }
    proof {
        assert(w.take((hi - lo) as int) =~= w);
        lemma_digits_value_nonneg(w);
    }
    Some(acc)
}

/// One `tenant=quota` override: the tenant name trimmed and non-empty,
/// the quota a digit string after trimming; anything else is dropped.
pub open spec fn spec_parse_pair(seg: Seq<char>) -> Option<(Seq<char>, u32)> {
    let m = find_from(seg, 0, '=');
    if !(0 <= m < seg.len()) {
        None
    } else {
        let name = spec_trim(seg.subrange(0, m));
        if name.len() == 0 {
            None
        } else {
            match spec_parse_u32(spec_trim(seg.subrange(m + 1, seg.len() as int))) {
                Some(v) => Some((name, v)),
                None => None,
            }
        }
    }
}

pub open spec fn opt_pair_seq(o: Option<(Seq<char>, u32)>) -> Seq<(Seq<char>, u32)> {
    match o {
        Some(p) => seq![p],
        None => Seq::empty(),
    }
}

/// The override list parsed from position `i` on: comma-separated
/// segments, each contributing its pair when it parses.
pub open spec fn spec_parse_tenant_quotas_from(s: Seq<char>, i: int) -> Seq<(Seq<char>, u32)>
    decreases s.len() - i when 0 <= i <= s.len()
{
    let m = find_from(s, i, ',');
    if i <= m < s.len() {
        opt_pair_seq(spec_parse_pair(s.subrange(i, m))) + spec_parse_tenant_quotas_from(s, m + 1)
    } else {
        opt_pair_seq(spec_parse_pair(s.subrange(i, s.len() as int)))
    }
}

pub open spec fn spec_parse_tenant_quotas(s: Seq<char>) -> Seq<(Seq<char>, u32)> {
    spec_parse_tenant_quotas_from(s, 0)
}

/// The override pairs as plain character sequences.
pub open spec fn pair_views(ps: Seq<(String, u32)>) -> Seq<(Seq<char>, u32)> {
    ps.map_values(|p: (String, u32)| (p.0@, p.1))
}

fn parse_pair_vec(seg: &Vec<char>) -> (r: Option<(String, u32)>)
    ensures
        match r {
            Some(p) => spec_parse_pair(seg@) == Some((p.0@, p.1)),
            None => spec_parse_pair(seg@) is None,
        },
{
    let m = find_char(seg, 0, '=');
    if m == seg.len() {
        return None;
    }
    let (a, b) = trim_window(seg, 0, m);
    if a == b {
        return None;
    }
    let (a2, b2) = trim_window(seg, m + 1, seg.len());
    match parse_u32_window(seg, a2, b2) {
        Some(v) => {
            let name_chars = vec_range(seg, a, b);
            let name = chars_string(&name_chars);
            Some((name, v))
        },
        None => None,
    }
}

/// Parse the `tenant=quota,tenant=quota` override list from
/// configuration. Pairs with an empty tenant, no `=`, or a quota that is
/// not a plain number are dropped; a later entry for a tenant overrides
/// an earlier one at lookup.
pub fn parse_tenant_quotas(s: String) -> (r: Vec<(String, u32)>)
    ensures
        pair_views(r@) == spec_parse_tenant_quotas(s@),
{
    let cs = chars_vec(s.as_str());
    let n = cs.len();
    let mut out: Vec<(String, u32)> = Vec::new();
    let mut start: usize = 0;
    let mut done: bool = false;
    proof {
        assert(pair_views(out@) =~= Seq::<(Seq<char>, u32)>::empty());
        assert(pair_views(out@) + spec_parse_tenant_quotas_from(cs@, 0)
            =~= spec_parse_tenant_quotas_from(cs@, 0));
    }
    while !done
        invariant
            0 <= start <= n,
            n == cs@.len(),
            cs@ == s@,
            !done ==> spec_parse_tenant_quotas(s@) == pair_views(out@)
                + spec_parse_tenant_quotas_from(cs@, start as int),
            done ==> spec_parse_tenant_quotas(s@) == pair_views(out@),
        decreases n - start + (if done { 0int } else { 1int }),
    {
        let m = find_char(&cs, start, ',');
        let seg = vec_range(&cs, start, m);
        let ghost before = out@;
        let ghost head = opt_pair_seq(spec_parse_pair(cs@.subrange(start as int, m as int)));
        match parse_pair_vec(&seg) {
            Some(pr) => {
                out.push(pr);
                proof {
                    assert(pair_views(out@) =~= pair_views(before) + head);
                }
            },
            None => {
                proof {
                    assert(pair_views(out@) =~= pair_views(before) + head);
                }
            },
        }
        if m == n {
            done = true;
            proof {
                assert(spec_parse_tenant_quotas_from(cs@, start as int) == head);
            }
        } else {
            proof {
                assert(spec_parse_tenant_quotas_from(cs@, start as int) == head
                    + spec_parse_tenant_quotas_from(cs@, m as int + 1));
                assert(pair_views(before) + (head + spec_parse_tenant_quotas_from(
                    cs@,
                    m as int + 1,
                )) =~= (pair_views(before) + head) + spec_parse_tenant_quotas_from(
                    cs@,
                    m as int + 1,
                ));
            }
            start = m + 1;
        }
    }
    out
}

/// Why the rate-limiter configuration is rejected.
#[derive(Debug, Clone, Copy, PartialEq, Eq, Structural)]
pub enum RateLimitConfigError {
    ZeroRps,
    ZeroBurst,
}

impl AppConfig {
    /// The rate limiter's parameters: refills per second and burst size,
    /// both of which must be positive for the stage to be built.
    pub fn rate_limit_params(&self) -> (r: Result<(u32, u32), RateLimitConfigError>)
        ensures
            match r {
                Ok(p) => p.0 == self.rps && p.1 == self.burst && self.rps > 0 && self.burst > 0,
                Err(e) => (e == RateLimitConfigError::ZeroRps && self.rps == 0) || (e
                    == RateLimitConfigError::ZeroBurst && self.rps > 0 && self.burst == 0),
            },
    {
        if self.rps == 0 {
            Err(RateLimitConfigError::ZeroRps)
        } else if self.burst == 0 {
            Err(RateLimitConfigError::ZeroBurst)
        } else {
            Ok((self.rps, self.burst))
        }
    }

    /// The timeout stage is enabled only by a positive configured
    /// duration.
    pub fn timeout_stage(&self) -> (t: Option<u64>)
        ensures
            t == (if self.timeout_secs is Some && self.timeout_secs->0 > 0 {
                self.timeout_secs
            } else {
                None
            }),
    {
        match self.timeout_secs {
            Some(v) => if v > 0 {
                Some(v)
            } else {
                None
            },
            None => None,
        }
    }

    /// The global concurrency cap is enabled only by a positive
    /// configured value.
    pub fn concurrency_stage(&self) -> (t: Option<usize>)
        ensures
            t == (if self.max_concurrency is Some && self.max_concurrency->0 > 0 {
                self.max_concurrency
            } else {
                None
            }),
    {
        match self.max_concurrency {
            Some(v) => if v > 0 {
                Some(v)
            } else {
                None
            },
            None => None,
        }
    }
}

/// Derives the rate-limit key for a request.
#[derive(Clone, Copy)]
pub struct ApiKeyExtractor;

pub open spec fn spec_forwarded(f: Option<&str>) -> Seq<char> {
    match f {
        Some(x) => x@,
        None => "unknown"@,
    }
}

impl ApiKeyExtractor {
    /// The rate-limit key: `key:` and the API key when a non-empty one
    /// is present, else `ip:` with the forwarded address and the path.
    pub fn extract_key(&self, api_key: Option<&str>, forwarded_for: Option<&str>, path: &str) -> (k:
        String)
        ensures
            (api_key matches Some(s) && s@.len() > 0) ==> k@ == "key:"@ + api_key->0@,
            !(api_key matches Some(s) && s@.len() > 0) ==> k@ == "ip:"@ + spec_forwarded(
                forwarded_for,
            ) + ":"@ + path@,
    {
        match api_key {
            Some(s) => {
                if !s.is_empty() {
                    let mut k = String::from_str("key:");
                    k.append(s);
                    return k;
                }
            },
            None => {},
        }
        let ip: &str = match forwarded_for {
            Some(x) => x,
            None => "unknown",
        };
        let mut k = String::from_str("ip:");
        k.append(ip);
        k.append(":");
        k.append(path);
        k
    }
}

/// The tenant identity used for quota accounting: the non-empty API key
/// when one is present; absent one, the same network-origin-plus-path
/// derivation the rate limiter keys by, so both stages see one
/// identity for a keyless caller.
pub fn tenant_of(api_key: Option<&str>, forwarded_for: Option<&str>, path: &str) -> (t: String)
    ensures
        (api_key matches Some(s) && s@.len() > 0) ==> t@ == api_key->0@,
        !(api_key matches Some(s) && s@.len() > 0) ==> t@ == "ip:"@ + spec_forwarded(
            forwarded_for,
        ) + ":"@ + path@,
{
    match api_key {
        Some(s) => {
            if !s.is_empty() {
                return String::from_str(s);
            }
        },
        None => {},
    }
    let ip: &str = match forwarded_for {
        Some(x) => x,
        None => "unknown",
    };
    let mut t = String::from_str("ip:");
    t.append(ip);
    t.append(":");
    t.append(path);
    t
}

} // verus!
