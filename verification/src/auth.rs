//! Request gates: the per-IP limiter on failed authentications, and the
//! decisions of the key, role, origin, tenant, usage-scope and quota checks
//! that run before a handler.

use vstd::prelude::*;

use crate::config::IpValue;
use crate::error::AppError;
use crate::store::{
    first_index, keep, lemma_first_index, lemma_first_index_bounds, lemma_keep_step, owns,
    put_at, quota_admits, tenant_admitted, tenant_has_id, KeyRecord, OriginCache, Role, TenantCache,
};

verus! {

// ---- The failure limiter ----------------------------------------------------------------

struct FailureWindow {
    failures: Vec<u64>,
    cooldown_until: Option<u64>,
}

/// Per-IP sliding-window limiter on failed authentications (never on
/// successful traffic). Times are milliseconds on a monotonic clock.
pub struct RateLimiter {
    state: Vec<(IpValue, FailureWindow)>,
    max_failures: u32,
    window_ms: u64,
    cooldown_ms: u64,
}

/// One IP's failures still being counted, and its cooldown end.
pub type IpWindow = (Seq<u64>, Option<u64>);

pub open spec fn for_ip(ip: IpValue) -> spec_fn((IpValue, Seq<u64>, Option<u64>)) -> bool {
    |e: (IpValue, Seq<u64>, Option<u64>)| e.0 == ip
}

/// The window of `ip` (empty when it has none).
pub open spec fn window_of(s: Seq<(IpValue, Seq<u64>, Option<u64>)>, ip: IpValue) -> (
    Seq<u64>,
    Option<u64>,
) {
    let i = first_index(s, for_ip(ip));
    if i >= 0 {
        (s[i].1, s[i].2)
    } else {
        (Seq::empty(), None)
    }
}

/// Milliseconds from `t` to `now`, zero when `t` is later.
pub open spec fn elapsed(now: u64, t: u64) -> int {
    if now >= t {
        now - t
    } else {
        0
    }
}

pub open spec fn within(now: u64, window: u64) -> spec_fn(u64) -> bool {
    |t: u64| elapsed(now, t) < window
}

/// A failure at `now`: failures older than the window are forgotten, this
/// one is added, and reaching `max` starts a cooldown (and clears the count).
pub open spec fn after_failure(w: (Seq<u64>, Option<u64>), now: u64, window: u64, max: u32, cooldown: u64) -> (
    Seq<u64>,
    Option<u64>,
) {
    let f = keep(w.0, within(now, window)).push(now);
    if f.len() >= max {
        (Seq::empty(), Some((now + cooldown) as u64))
    } else {
        (f, w.1)
    }
}

/// What a check at `now` answers: the milliseconds left of a running
/// cooldown, or clear.
pub open spec fn check_answer(w: (Seq<u64>, Option<u64>), now: u64) -> Result<(), u64> {
    match w.1 {
        Some(until) => if now < until {
            Err((until - now) as u64)
        } else {
            Ok(())
        },
        None => Ok(()),
    }
}

pub proof fn lemma_first_index_put<A>(
    s: Seq<A>,
    p: spec_fn(A) -> bool,
    q: spec_fn(A) -> bool,
    i: int,
    x: A,
)
    requires
        i == first_index(s, q),
        q(x),
        forall|y: A| #[trigger] q(y) ==> !p(y),
    ensures
        first_index(put_at(s, i, x), p) == first_index(s, p),
        first_index(s, p) >= 0 ==> put_at(s, i, x)[first_index(s, p)] == s[first_index(s, p)],
{
    lemma_first_index_bounds(s, p);
    lemma_first_index_bounds(s, q);
    let t = put_at(s, i, x);
    let j = first_index(s, p);
    if i >= 0 {
        assert(!p(s[i]));
    }
    if j >= 0 {
        assert forall|a: int| 0 <= a < j implies !p(#[trigger] t[a]) by {
            if a != i {
                assert(t[a] == s[a]);
                lemma_first_index_before(s, p, a);
            }
        }
        assert(t[j] == s[j]);
        lemma_first_index(t, p, j);
    } else {
        assert forall|a: int| 0 <= a < t.len() implies !p(#[trigger] t[a]) by {
            if a < s.len() && a != i {
                assert(t[a] == s[a]);
            }
        }
        lemma_first_index(t, p, t.len() as int);
    }
}

/// Nothing before the first match matches.
pub proof fn lemma_first_index_before<A>(s: Seq<A>, p: spec_fn(A) -> bool, a: int)
    requires
        0 <= a < s.len(),
        first_index(s, p) < 0 || a < first_index(s, p),
    ensures
        !p(s[a]),
    decreases s.len(),
{
    lemma_first_index_bounds(s, p);
    if a < s.len() - 1 {
        let t = s.drop_last();
        lemma_first_index_bounds(t, p);
        if first_index(t, p) >= 0 {
            assert(first_index(s, p) == first_index(t, p));
        }
        lemma_first_index_before(t, p, a);
        assert(t[a] == s[a]);
    }
}

spec fn window_entries(s: Seq<(IpValue, FailureWindow)>) -> Seq<(IpValue, Seq<u64>, Option<u64>)> {
    s.map_values(|e: (IpValue, FailureWindow)| (e.0, e.1.failures@, e.1.cooldown_until))
}

impl RateLimiter {
    /// The windows of every IP seen.
    pub closed spec fn windows(&self) -> Seq<(IpValue, Seq<u64>, Option<u64>)> {
        window_entries(self.state@)
    }

    pub closed spec fn max_failures_spec(&self) -> u32 {
        self.max_failures
    }

    pub closed spec fn window_spec(&self) -> u64 {
        self.window_ms
    }

    pub closed spec fn cooldown_spec(&self) -> u64 {
        self.cooldown_ms
    }

    /// `max_failures` failures within `window_ms` start a `cooldown_ms`
    /// cooldown.
    pub fn new(max_failures: u32, window_ms: u64, cooldown_ms: u64) -> (r: RateLimiter)
        ensures
            r.windows().len() == 0,
            r.max_failures_spec() == max_failures,
            r.window_spec() == window_ms,
            r.cooldown_spec() == cooldown_ms,
    {
        RateLimiter { state: Vec::new(), max_failures, window_ms, cooldown_ms }
    }

    fn find(&self, ip: IpValue) -> (i: usize)
        ensures
            i <= self.windows().len(),
            first_index(self.windows(), for_ip(ip)) == (if i < self.windows().len() {
                i as int
            } else {
                -1
            }),
    {
        let ghost v = self.windows();
        let mut i: usize = 0;
        while i < self.state.len()
            invariant
                i <= self.state.len(),
                v == window_entries(self.state@),
                forall|a: int| 0 <= a < i ==> !for_ip(ip)(#[trigger] v[a]),
            ensures
                i <= self.state.len(),
                forall|a: int| 0 <= a < i ==> !for_ip(ip)(#[trigger] v[a]),
                i < self.state.len() ==> for_ip(ip)(v[i as int]),
            decreases self.state.len() - i,
        {
            if self.state[i].0 == ip {
                break;
            }
            i = i + 1;
        }
        proof {
            lemma_first_index(v, for_ip(ip), i as int);
        }
        i
    }

    /// `Err(remaining_ms)` while `ip` is in a cooldown at `now_ms`.
    pub fn check(&self, ip: IpValue, now_ms: u64) -> (r: Result<(), u64>)
        ensures
            r == check_answer(window_of(self.windows(), ip), now_ms),
    {
        let i = self.find(ip);
        if i < self.state.len() {
            match self.state[i].1.cooldown_until {
                Some(until) => if now_ms < until {
                    return Err(until - now_ms);
                },
                None => {},
            }
        }
        Ok(())
    }

    /// Records a failed authentication from `ip` at `now_ms`; may start a
    /// cooldown. Other IPs' windows are untouched.
    pub fn record_failure(&mut self, ip: IpValue, now_ms: u64)
        requires
            now_ms + old(self).cooldown_spec() <= u64::MAX,
        ensures
            window_of(final(self).windows(), ip) == after_failure(
                window_of(old(self).windows(), ip),
                now_ms,
                old(self).window_spec(),
                old(self).max_failures_spec(),
                old(self).cooldown_spec(),
            ),
            forall|other: IpValue|
                other != ip ==> #[trigger] window_of(final(self).windows(), other) == window_of(
                    old(self).windows(),
                    other,
                ),
            final(self).max_failures_spec() == old(self).max_failures_spec(),
            final(self).window_spec() == old(self).window_spec(),
            final(self).cooldown_spec() == old(self).cooldown_spec(),
    {
        let i = self.find(ip);
        let ghost v = self.windows();
        let ghost w = window_of(v, ip);
        let mut kept: Vec<u64> = Vec::new();
        let mut old_cooldown: Option<u64> = None;
        if i < self.state.len() {
            old_cooldown = self.state[i].1.cooldown_until;
            let fs = &self.state[i].1.failures;
            assert(fs@ == w.0);
            for k in 0..fs.len()
                invariant
                    fs@ == w.0,
                    kept@ == keep(w.0.take(k as int), within(now_ms, self.window_ms)),
            {
                proof {
                    lemma_keep_step(w.0, within(now_ms, self.window_ms), k as int);
                }
                let t = fs[k];
                let age = if now_ms >= t {
                    now_ms - t
                } else {
                    0
                };
                if age < self.window_ms {
                    kept.push(t);
                }
            }
            assert(w.0.take(fs.len() as int) =~= w.0);
        } else {
            assert(keep(w.0, within(now_ms, self.window_ms)) =~= Seq::<u64>::empty());
        }
        kept.push(now_ms);
        let entry = if kept.len() >= self.max_failures as usize {
            FailureWindow { failures: Vec::new(), cooldown_until: Some(now_ms + self.cooldown_ms) }
        } else {
            FailureWindow { failures: kept, cooldown_until: old_cooldown }
        };
        let ghost ev = (ip, entry.failures@, entry.cooldown_until);
        proof {
            let nw = after_failure(w, now_ms, self.window_ms, self.max_failures, self.cooldown_ms);
            assert(ev.1 =~= nw.0);
            assert(ev.2 == nw.1);
        }
        if i < self.state.len() {
            self.state.set(i, (ip, entry));
        } else {
            self.state.push((ip, entry));
        }
        proof {
            let idx = first_index(v, for_ip(ip));
            assert(self.windows() =~= put_at(v, idx, ev));
            lemma_first_index_bounds(v, for_ip(ip));
            assert forall|other: IpValue| other != ip implies #[trigger] window_of(
                self.windows(),
                other,
            ) == window_of(v, other) by {
                lemma_first_index_put(v, for_ip(other), for_ip(ip), idx, ev);
            }
            let t = put_at(v, idx, ev);
            lemma_first_index_bounds(t, for_ip(ip));
            if idx >= 0 {
                assert(t[idx] == ev);
                assert forall|a: int| 0 <= a < idx implies !for_ip(ip)(#[trigger] t[a]) by {
                    assert(t[a] == v[a]);
                    lemma_first_index_before(v, for_ip(ip), a);
                }
                lemma_first_index(t, for_ip(ip), idx);
            } else {
                assert forall|a: int| 0 <= a < v.len() implies !for_ip(ip)(#[trigger] t[a]) by {
                    assert(t[a] == v[a]);
                }
                lemma_first_index(t, for_ip(ip), v.len() as int);
            }
        }
    }
}

/// Law: once failures reach the threshold within the window, the IP is
/// refused until the cooldown has run, and the refusal says how long is
/// left; after it, checks pass again.
pub proof fn lemma_threshold_starts_cooldown(
    w: (Seq<u64>, Option<u64>),
    now: u64,
    window: u64,
    max: u32,
    cooldown: u64,
    t: u64,
)
    requires
        keep(w.0, within(now, window)).len() + 1 >= max,
        now + cooldown <= u64::MAX,
    ensures
        now <= t < now + cooldown ==> check_answer(after_failure(w, now, window, max, cooldown), t)
            == Err::<(), u64>((now + cooldown - t) as u64),
        t >= now + cooldown ==> check_answer(after_failure(w, now, window, max, cooldown), t) == Ok::<
            (),
            u64,
        >(()),
        after_failure(w, now, window, max, cooldown).0.len() == 0,
{
}

/// Seconds for `Retry-After`: the whole seconds left, at least one.
pub fn retry_after_secs(remaining_ms: u64) -> (s: u64)
    ensures
        s == (if remaining_ms / 1000 >= 1 {
            remaining_ms / 1000
        } else {
            1
        }),
{
    let secs = remaining_ms / 1000;
    if secs >= 1 {
        secs
    } else {
        1
    }
}

} // verus!

verus! {

// ---- Gate decisions ------------------------------------------------------------------

/// The `Origin` header of a request: absent, not valid text, or its value.
#[derive(Debug)]
pub enum OriginHeader {
    Absent,
    Invalid,
    Value(String),
}

/// Which slice of the usage rollup a `/usage/*` caller may read.
#[derive(Debug)]
pub enum UsageScope {
    /// Cross-tenant aggregates, for the platform key.
    Platform,
    /// One tenant's rows only.
    Tenant(String),
}

/// `new` is `old` after a failure from `ip` at `now`.
pub open spec fn failure_recorded(old: RateLimiter, new: RateLimiter, ip: IpValue, now: u64) -> bool {
    &&& window_of(new.windows(), ip) == after_failure(
        window_of(old.windows(), ip),
        now,
        old.window_spec(),
        old.max_failures_spec(),
        old.cooldown_spec(),
    )
    &&& forall|other: IpValue|
        other != ip ==> #[trigger] window_of(new.windows(), other) == window_of(old.windows(), other)
    &&& new.max_failures_spec() == old.max_failures_spec()
    &&& new.window_spec() == old.window_spec()
    &&& new.cooldown_spec() == old.cooldown_spec()
}

pub open spec fn secs_left(remaining_ms: u64) -> u64 {
    if remaining_ms / 1000 >= 1 {
        remaining_ms / 1000
    } else {
        1
    }
}

/// The first step of the key gates: an IP in cooldown is refused (429 with
/// the seconds left), a request without a key is unauthorized and counts as
/// a failure; otherwise the raw key is handed on to authentication.
pub fn require_key_present(
    limiter: &mut RateLimiter,
    ip: IpValue,
    now_ms: u64,
    raw_key: Option<String>,
) -> (r: Result<String, AppError>)
    requires
        now_ms + old(limiter).cooldown_spec() <= u64::MAX,
    ensures
        match check_answer(window_of(old(limiter).windows(), ip), now_ms) {
            Err(rem) => r matches Err(AppError::RateLimited { retry_after_secs }) && retry_after_secs
                == secs_left(rem) && *final(limiter) == *old(limiter),
            Ok(_) => match raw_key {
                None => r matches Err(AppError::Unauthorized) && failure_recorded(
                    *old(limiter),
                    *final(limiter),
                    ip,
                    now_ms,
                ),
                Some(k) => r == Ok::<String, AppError>(k) && *final(limiter) == *old(limiter),
            },
        },
{
    match limiter.check(ip, now_ms) {
        Err(rem) => return Err(AppError::RateLimited { retry_after_secs: retry_after_secs(rem) }),
        Ok(()) => {},
    }
    match raw_key {
        None => {
            limiter.record_failure(ip, now_ms);
            Err(AppError::Unauthorized)
        },
        Some(k) => Ok(k),
    }
}

/// The second step: a key that did not authenticate is unauthorized and
/// counts as a failure; on a platform-only route a key of another role is
/// forbidden; otherwise the key's record is admitted.
pub fn require_key_valid(
    limiter: &mut RateLimiter,
    ip: IpValue,
    now_ms: u64,
    found: Option<KeyRecord>,
    platform_only: bool,
) -> (r: Result<KeyRecord, AppError>)
    requires
        now_ms + old(limiter).cooldown_spec() <= u64::MAX,
    ensures
        match found {
            None => r matches Err(AppError::Unauthorized) && failure_recorded(
                *old(limiter),
                *final(limiter),
                ip,
                now_ms,
            ),
            Some(k) => *final(limiter) == *old(limiter) && if platform_only && k.role != Role::Platform {
                r matches Err(AppError::Forbidden)
            } else {
                r matches Ok(x) && x@ == k@
            },
        },
{
    match found {
        None => {
            limiter.record_failure(ip, now_ms);
            Err(AppError::Unauthorized)
        },
        Some(k) => {
            if platform_only && k.role != Role::Platform {
                Err(AppError::Forbidden)
            } else {
                Ok(k)
            }
        },
    }
}

/// Platform keys are for server-to-server use: any request carrying an
/// `Origin` header is refused on the platform routes, before the key is
/// even looked at.
pub fn require_no_origin(origin: &OriginHeader) -> (r: Result<(), AppError>)
    ensures
        (*origin is Absent) == (r is Ok),
        r matches Err(e) ==> e matches AppError::Forbidden,
{
    match origin {
        OriginHeader::Absent => Ok(()),
        _ => Err(AppError::Forbidden),
    }
}

/// Only `admin` keys pass (platform keys have no tenant and are refused too).
pub fn require_admin(role: Role) -> (r: Result<(), AppError>)
    ensures
        (role == Role::Admin) == (r is Ok),
        r matches Err(e) ==> e matches AppError::Forbidden,
{
    if role != Role::Admin {
        Err(AppError::Forbidden)
    } else {
        Ok(())
    }
}

/// A request with an `Origin` header must come from an origin registered to
/// the calling key's own tenant; one without (server to server) passes.
pub fn require_origin_binding(origin: &OriginHeader, tenant_id: &str, origins: &OriginCache) -> (r:
    Result<(), AppError>)
    ensures
        (r is Ok) == match *origin {
            OriginHeader::Absent => true,
            OriginHeader::Invalid => false,
            OriginHeader::Value(o) => owns(origins@, tenant_id@, o@),
        },
        r matches Err(e) ==> e matches AppError::Forbidden,
{
    match origin {
        OriginHeader::Absent => Ok(()),
        OriginHeader::Invalid => Err(AppError::Forbidden),
        OriginHeader::Value(o) => {
            if origins.tenant_owns_origin(tenant_id, o.as_str()) {
                Ok(())
            } else {
                Err(AppError::Forbidden)
            }
        },
    }
}

/// A suspended tenant is refused; an unknown one passes (its key was
/// already authenticated).
pub fn require_active_tenant(tenants: &TenantCache, tenant_id: &str) -> (r: Result<(), AppError>)
    ensures
        (r is Ok) == tenant_admitted(tenants@, tenant_id@),
        r matches Err(e) ==> e matches AppError::Forbidden,
{
    match tenants.get_tenant(tenant_id) {
        Some(t) => if t.suspended_at.is_some() {
            Err(AppError::Forbidden)
        } else {
            Ok(())
        },
        None => Ok(()),
    }
}

/// The `/usage/*` gate: standard keys are refused; a platform key reads
/// every tenant but may not carry an `Origin`; an admin key reads its own
/// tenant, which must exist and not be suspended, and its `Origin`, if any,
/// must be registered to that tenant.
pub fn require_usage_scope(
    record: &KeyRecord,
    origin: &OriginHeader,
    tenants: &TenantCache,
    origins: &OriginCache,
) -> (r: Result<UsageScope, AppError>)
    ensures
        match record.role {
            Role::Standard => r matches Err(AppError::Forbidden),
            Role::Platform => if *origin is Absent {
                r matches Ok(UsageScope::Platform)
            } else {
                r matches Err(AppError::Forbidden)
            },
            Role::Admin => match record@.tenant_id {
                None => r matches Err(AppError::Forbidden),
                Some(t) => {
                    let i = first_index(tenants@, tenant_has_id(t));
                    let origin_ok = match *origin {
                        OriginHeader::Absent => true,
                        OriginHeader::Invalid => false,
                        OriginHeader::Value(o) => owns(origins@, t, o@),
                    };
                    if i >= 0 && tenants@[i].suspended_at is None && origin_ok {
                        r matches Ok(UsageScope::Tenant(x)) && x@ == t
                    } else {
                        r matches Err(AppError::Forbidden)
                    }
                },
            },
        },
{
    match record.role {
        Role::Standard => Err(AppError::Forbidden),
        Role::Platform => {
            match origin {
                OriginHeader::Absent => Ok(UsageScope::Platform),
                _ => Err(AppError::Forbidden),
            }
        },
        Role::Admin => {
            let tenant_id = match &record.tenant_id {
                Some(t) => t,
                None => return Err(AppError::Forbidden),
            };
            let tenant = match tenants.get_tenant(tenant_id.as_str()) {
                Some(t) => t,
                None => return Err(AppError::Forbidden),
            };
            if tenant.suspended_at.is_some() {
                return Err(AppError::Forbidden);
            }
            match origin {
                OriginHeader::Absent => {},
                OriginHeader::Invalid => return Err(AppError::Forbidden),
                OriginHeader::Value(o) => {
                    if !origins.tenant_owns_origin(tenant_id.as_str(), o.as_str()) {
                        return Err(AppError::Forbidden);
                    }
                },
            }
            Ok(UsageScope::Tenant(tenant_id.clone()))
        },
    }
}

/// The `/spellcheck*` quota gate: consumes one unit of the tenant's quota,
/// or refuses with `QuotaExceeded` (a 429 distinct from the auth limiter).
pub fn require_quota(tenants: &mut TenantCache, tenant_id: &str) -> (r: Result<u64, AppError>)
    ensures
        ({
            let v = old(tenants)@;
            let i = first_index(v, tenant_has_id(tenant_id@));
            if i >= 0 && quota_admits(v[i]) && v[i].request_count < u64::MAX {
                r == Ok::<u64, AppError>((v[i].request_count + 1) as u64)
            } else {
                r matches Err(AppError::QuotaExceeded) && final(tenants)@ == v
            }
        }),
        r is Ok ==> final(tenants)@ == old(tenants)@.update(
            first_index(old(tenants)@, tenant_has_id(tenant_id@)),
            crate::store::TenantView {
                request_count: r->Ok_0,
                ..old(tenants)@[first_index(old(tenants)@, tenant_has_id(tenant_id@))]
            },
        ),
{
    match tenants.try_consume_quota(tenant_id) {
        Some(n) => Ok(n),
        None => Err(AppError::QuotaExceeded),
    }
}

} // verus!
