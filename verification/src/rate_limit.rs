//! Rate limiting: the sliding-window log, the status and headers a limiter
//! reports, client keys, and the tiers of the multi-tier limiter.
//!
//! Times and durations are nanoseconds.

use vstd::prelude::*;
use std::collections::VecDeque;
use crate::text::{concat, owned, str_eq, trim, trim_str};

verus! {

/// Errors of the rate limiters.
#[derive(Debug)]
pub enum RateLimiterError {
    InvalidConfig,
    Poisoned,
    Redis(String),
}

impl RateLimiterError {
    /// The error's message.
    pub fn message(&self) -> (r: String)
        ensures
            r@ == match self {
                RateLimiterError::InvalidConfig => "invalid rate limiter configuration"@,
                RateLimiterError::Poisoned => "rate limiter mutex poisoned"@,
                RateLimiterError::Redis(e) => "redis error: "@ + e@,
            },
    {
        match self {
            RateLimiterError::InvalidConfig => owned("invalid rate limiter configuration"),
            RateLimiterError::Poisoned => owned("rate limiter mutex poisoned"),
            RateLimiterError::Redis(e) => concat("redis error: ", e.as_str()),
        }
    }
}

/// `now - t`, or 0 when `t` is later (a clock's saturating `duration_since`).
pub open spec fn since(now: u64, t: u64) -> u64 {
    if now >= t {
        (now - t) as u64
    } else {
        0
    }
}

/// `now - t`, or 0 when `t` is later.
pub fn elapsed_ns(now: u64, t: u64) -> (r: u64)
    ensures
        r == since(now, t),
{
    if now >= t {
        now - t
    } else {
        0
    }
}

/// The requests left after dropping, from the oldest, those at least a
/// window old at `now`.
pub open spec fn drained(reqs: Seq<u64>, window: u64, now: u64) -> Seq<u64>
    decreases reqs.len(),
{
    if reqs.len() > 0 && since(now, reqs[0]) >= window {
        drained(reqs.drop_first(), window, now)
    } else {
        reqs
    }
}

/// Draining drops exactly the expired prefix: the drained log is what
/// follows the longest run of leading requests at least a window old, so
/// its first request (if any) is less than a window old.
pub proof fn drained_is_suffix_after_expired_prefix(reqs: Seq<u64>, window: u64, now: u64)
    ensures
        exists|k: int| {
            &&& 0 <= k <= reqs.len()
            &&& drained(reqs, window, now) == reqs.skip(k)
            &&& forall|i: int| 0 <= i < k ==> since(now, #[trigger] reqs[i]) >= window
            &&& (k < reqs.len() ==> since(now, reqs[k]) < window)
        },
    decreases reqs.len(),
{
    if reqs.len() > 0 && since(now, reqs[0]) >= window {
        drained_is_suffix_after_expired_prefix(reqs.drop_first(), window, now);
        let r = reqs.drop_first();
        let k = choose|k: int| {
            &&& 0 <= k <= r.len()
            &&& drained(r, window, now) == r.skip(k)
            &&& forall|i: int| 0 <= i < k ==> since(now, #[trigger] r[i]) >= window
            &&& (k < r.len() ==> since(now, r[k]) < window)
        };
        assert(reqs.skip(k + 1) =~= r.skip(k));
        assert forall|i: int| 0 <= i < k + 1 implies since(now, #[trigger] reqs[i]) >= window by {
            if i > 0 {
                assert(reqs[i] == r[i - 1]);
            }
        }
        if k + 1 < reqs.len() {
            assert(reqs[k + 1] == r[k]);
        }
    } else {
        assert(reqs.skip(0) =~= reqs);
    }
}

/// In a log kept in time order, draining keeps every request less than a
/// window old and drops every other: a time is in the drained log exactly
/// when it is in the log and less than a window old.
pub proof fn drained_keeps_recent_requests(reqs: Seq<u64>, window: u64, now: u64)
    requires
        forall|i: int, j: int| 0 <= i <= j < reqs.len() ==> reqs[i] <= reqs[j],
    ensures
        forall|t: u64| drained(reqs, window, now).contains(t) <==> (reqs.contains(t) && since(now, t) < window),
{
    drained_is_suffix_after_expired_prefix(reqs, window, now);
    let k = choose|k: int| {
        &&& 0 <= k <= reqs.len()
        &&& drained(reqs, window, now) == reqs.skip(k)
        &&& forall|i: int| 0 <= i < k ==> since(now, #[trigger] reqs[i]) >= window
        &&& (k < reqs.len() ==> since(now, reqs[k]) < window)
    };
    let d = drained(reqs, window, now);
    assert forall|t: u64| d.contains(t) <==> (reqs.contains(t) && since(now, t) < window) by {
        if d.contains(t) {
            let j = choose|j: int| 0 <= j < d.len() && d[j] == t;
            assert(d[j] == reqs[k + j]);
            assert(reqs[k] <= reqs[k + j]);
            assert(since(now, t) <= since(now, reqs[k]));
        }
        if reqs.contains(t) && since(now, t) < window {
            let j = choose|j: int| 0 <= j < reqs.len() && reqs[j] == t;
            if j < k {
                assert(since(now, reqs[j]) >= window);
            }
            assert(d[j - k] == reqs[j]);
        }
    }
}

/// `std::time::Instant`, a reading of the monotonic clock.
#[verifier::external_type_specification]
#[verifier::external_body]
pub struct ExInstant(std::time::Instant);

/// `Instant::now`.  Nothing is claimed of the reading.
#[verifier::external_body]
fn instant_now() -> (r: std::time::Instant) {
    std::time::Instant::now()
}

/// `Instant::elapsed` of `origin`, in nanoseconds (the largest `u64` once
/// that no longer fits).  Nothing is claimed of the value: it is the clock's.
#[verifier::external_body]
fn nanos_since(origin: &std::time::Instant) -> (t: u64) {
    match u64::try_from(origin.elapsed().as_nanos()) {
        Ok(t) => t,
        Err(_) => u64::MAX,
    }
}

/// A log of the times of recent requests, allowing at most `max_requests`
/// within any window of `window_duration`.
#[derive(Debug)]
pub struct SlidingWindowLog {
    pub requests: VecDeque<u64>,
    pub window_duration: u64,
    pub max_requests: usize,
    /// The monotonic clock's reading when the log was made: request times
    /// taken from the clock count from it.
    pub origin: std::time::Instant,
}

impl SlidingWindowLog {
    /// A log with no requests; fails on a zero window or a zero maximum.
    pub fn new(window_duration: u64, max_requests: usize) -> (r: Result<SlidingWindowLog, RateLimiterError>)
        ensures
            (window_duration == 0 || max_requests == 0) <==> r is Err,
            r matches Err(e) ==> e is InvalidConfig,
            r matches Ok(log) ==> log.requests@.len() == 0 && log.window_duration == window_duration
                && log.max_requests == max_requests,
    {
        if window_duration == 0 || max_requests == 0 {
            return Err(RateLimiterError::InvalidConfig);
        }
        Ok(SlidingWindowLog { requests: VecDeque::new(), window_duration, max_requests, origin: instant_now() })
    }

    /// Drops the requests at least a window old at `now`, oldest first.
    pub fn drain_expired(&mut self, now: u64)
        ensures
            final(self).requests@ == drained(old(self).requests@, old(self).window_duration, now),
            final(self).window_duration == old(self).window_duration,
            final(self).max_requests == old(self).max_requests,
    {
        while self.requests.len() > 0 && elapsed_ns(now, self.requests[0]) >= self.window_duration
            invariant
                drained(self.requests@, self.window_duration, now) == drained(
                    old(self).requests@,
                    old(self).window_duration,
                    now,
                ),
                self.window_duration == old(self).window_duration,
                self.max_requests == old(self).max_requests,
            decreases self.requests@.len(),
        {
            let ghost before = self.requests@;
            let _ = self.requests.pop_front();
            assert(self.requests@ =~= before.drop_first());
        }
    }
}

impl SlidingWindowLog {
    /// Admits a request at the current time of the monotonic clock.
    pub fn allow(&mut self) -> (r: bool)
        ensures
            exists|now: u64| allowed_at(old(self).requests@, old(self).window_duration, old(self).max_requests, now, r, final(self).requests@),
            final(self).window_duration == old(self).window_duration,
            final(self).max_requests == old(self).max_requests,
    {
        let now = nanos_since(&self.origin);
        self.allow_at(now)
    }

    /// Admits a request at `now` when, after dropping expired requests, the
    /// window holds fewer than the maximum; the request is then logged.
    pub fn allow_at(&mut self, now: u64) -> (r: bool)
        ensures
            allowed_at(old(self).requests@, old(self).window_duration, old(self).max_requests, now, r, final(self).requests@),
            final(self).window_duration == old(self).window_duration,
            final(self).max_requests == old(self).max_requests,
    {
        self.drain_expired(now);
        if self.requests.len() >= self.max_requests {
            return false;
        }
        self.requests.push_back(now);
        true
    }

    /// The requests the window still admits.
    pub fn remaining(&self) -> (r: u64)
        ensures
            r == if self.requests@.len() >= self.max_requests { 0 } else { self.max_requests - self.requests@.len() },
    {
        let n = self.requests.len();
        if n >= self.max_requests {
            0
        } else {
            (self.max_requests - n) as u64
        }
    }

    /// How long until the window admits another request, at `now`: zero
    /// while it is not full, else until the oldest request expires.
    pub fn retry_after(&self, now: u64) -> (r: u64)
        ensures
            r == if self.requests@.len() < self.max_requests || self.requests@.len() == 0 {
                0
            } else if self.window_duration >= since(now, self.requests@[0]) {
                (self.window_duration - since(now, self.requests@[0])) as u64
            } else {
                0
            },
    {
        if self.requests.len() < self.max_requests || self.requests.len() == 0 {
            return 0;
        }
        let e = elapsed_ns(now, self.requests[0]);
        if self.window_duration >= e {
            self.window_duration - e
        } else {
            0
        }
    }
}

/// The outcome of admitting a request at `now`: expired requests drop out;
/// the request is admitted, and logged, when fewer than `max` remain.
pub open spec fn allowed_at(reqs: Seq<u64>, window: u64, max: usize, now: u64, r: bool, after: Seq<u64>) -> bool {
    let d = drained(reqs, window, now);
    &&& r == (d.len() < max)
    &&& after == if r { d.push(now) } else { d }
}

/// Nanoseconds until the oldest of `reqs` leaves a window that holds
/// `max` or more requests (zero while the window is not full).
pub open spec fn wait_nanos(reqs: Seq<u64>, window: u64, max: usize, now: u64) -> u64 {
    if reqs.len() < max || reqs.len() == 0 {
        0
    } else if window >= since(now, reqs[0]) {
        (window - since(now, reqs[0])) as u64
    } else {
        0
    }
}

/// The seconds a check answers with: none for an admitted request, else
/// the whole seconds until the window, now holding `after`, admits another.
pub open spec fn retry_secs(allowed: bool, after: Seq<u64>, window: u64, max: usize, now: u64) -> u64 {
    if allowed { 0 } else { ceil_secs(wait_nanos(after, window, max, now)) }
}

/// What is left after draining holds only requests less than a window old.
pub proof fn lemma_drained_head(reqs: Seq<u64>, window: u64, now: u64)
    ensures
        drained(reqs, window, now).len() > 0 ==> since(now, drained(reqs, window, now)[0]) < window,
    decreases reqs.len(),
{
    if reqs.len() > 0 && since(now, reqs[0]) >= window {
        lemma_drained_head(reqs.drop_first(), window, now);
    }
}

/// A refused request is told to wait at least a second: the window is full
/// and its oldest request has not yet left it.
pub proof fn refusal_waits_a_second(before: Seq<u64>, window: u64, max: usize, now: u64, after: Seq<u64>)
    requires
        max > 0,
        allowed_at(before, window, max, now, false, after),
    ensures
        retry_secs(false, after, window, max, now) >= 1,
{
    lemma_drained_head(before, window, now);
    let n = wait_nanos(after, window, max, now);
    assert(n > 0);
    assert(n % 1_000_000_000 == 0 ==> n / 1_000_000_000 >= 1);
}

/// Whole seconds covering `nanos`, rounded up.
pub open spec fn ceil_secs(nanos: u64) -> u64 {
    (nanos / 1_000_000_000 + if nanos % 1_000_000_000 > 0 { 1u64 } else { 0u64 }) as u64
}

/// Whole seconds covering a duration of `nanos`, rounded up.
pub fn ceil_seconds(nanos: u64) -> (r: u64)
    ensures
        r == ceil_secs(nanos),
{
    nanos / 1_000_000_000 + if nanos % 1_000_000_000 > 0 { 1u64 } else { 0u64 }
}

/// What a limiter reports of one check.
#[derive(Debug, Clone, PartialEq, Eq)]
pub struct RateLimitStatus {
    pub allowed: bool,
    pub limit: u64,
    pub remaining: u64,
    pub retry_after_secs: u64,
    pub reset_after_secs: u64,
}

/// The response headers of a check.
#[derive(Debug, Clone, PartialEq, Eq)]
pub struct RateLimitHeaders {
    pub retry_after: u64,
    pub x_rate_limit_limit: u64,
    pub x_rate_limit_remaining: u64,
    pub x_rate_limit_reset: u64,
}

impl RateLimitStatus {
    /// The headers that report this status.
    pub fn headers(&self) -> (r: RateLimitHeaders)
        ensures
            r.retry_after == self.retry_after_secs,
            r.x_rate_limit_limit == self.limit,
            r.x_rate_limit_remaining == self.remaining,
            r.x_rate_limit_reset == self.reset_after_secs,
    {
        RateLimitHeaders {
            retry_after: self.retry_after_secs,
            x_rate_limit_limit: self.limit,
            x_rate_limit_remaining: self.remaining,
            x_rate_limit_reset: self.reset_after_secs,
        }
    }
}

/// Checks `log` at `now` and reports the status (the sliding-window
/// limiter's check of one key).
pub fn window_status(log: &mut SlidingWindowLog, now: u64) -> (r: RateLimitStatus)
    ensures
        allowed_at(old(log).requests@, old(log).window_duration, old(log).max_requests, now, r.allowed, final(log).requests@),
        final(log).window_duration == old(log).window_duration,
        final(log).max_requests == old(log).max_requests,
        r.limit == old(log).max_requests,
        r.remaining == if final(log).requests@.len() >= final(log).max_requests { 0 } else { final(log).max_requests - final(log).requests@.len() },
        r.retry_after_secs == retry_secs(r.allowed, final(log).requests@, final(log).window_duration, final(log).max_requests, now),
        r.reset_after_secs == r.retry_after_secs,
{
    let allowed = log.allow_at(now);
    let remaining = log.remaining();
    let retry_after_secs = if allowed { 0 } else { ceil_seconds(log.retry_after(now)) };
    RateLimitStatus {
        allowed,
        limit: log.max_requests as u64,
        remaining,
        retry_after_secs,
        reset_after_secs: retry_after_secs,
    }
}

/// Which limiter a service uses.
#[derive(Debug, Clone, Copy, PartialEq, Eq, Structural)]
pub enum WindowType {
    TokenBucket,
    SlidingWindow,
}

/// The limiter's configuration.
pub struct RateLimiterConfig {
    pub window_type: WindowType,
    pub redis_url: String,
}

impl Default for RateLimiterConfig {
    fn default() -> (r: Self)
        ensures
            r.window_type == WindowType::TokenBucket,
            r.redis_url@ == "redis://localhost:6379"@,
    {
        RateLimiterConfig { window_type: WindowType::TokenBucket, redis_url: owned("redis://localhost:6379") }
    }
}

/// The first of the trimmed values that is not empty.
pub open spec fn client_key_spec(api_key: Option<Seq<char>>, jwt_sub: Option<Seq<char>>, ip: Option<Seq<char>>) -> Option<Seq<char>> {
    if api_key is Some && trim(api_key->0).len() > 0 {
        Some(trim(api_key->0))
    } else if jwt_sub is Some && trim(jwt_sub->0).len() > 0 {
        Some(trim(jwt_sub->0))
    } else if ip is Some && trim(ip->0).len() > 0 {
        Some(trim(ip->0))
    } else {
        None
    }
}

/// An optional string by its view.
pub open spec fn opt_view(o: Option<&str>) -> Option<Seq<char>> {
    match o {
        Some(s) => Some(s@),
        None => None,
    }
}

fn non_empty_trimmed(v: Option<&str>) -> (r: Option<String>)
    ensures
        match r {
            Some(s) => v is Some && trim(v->0@).len() > 0 && s@ == trim(v->0@),
            None => v is None || trim(v->0@).len() == 0,
        },
{
    match v {
        Some(s) => {
            let t = trim_str(s);
            let tc = crate::text::chars_of(t.as_str());
            if tc.len() > 0 {
                Some(t)
            } else {
                None
            }
        },
        None => None,
    }
}

/// The key a client is limited under: its API key, else its token's
/// subject, else its address, each trimmed and taken only when not empty.
pub fn extract_client_key(api_key: Option<&str>, jwt_sub: Option<&str>, ip_address: Option<&str>) -> (r: Option<String>)
    ensures
        match client_key_spec(opt_view(api_key), opt_view(jwt_sub), opt_view(ip_address)) {
            Some(k) => r matches Some(s) && s@ == k,
            None => r is None,
        },
{
    match non_empty_trimmed(api_key) {
        Some(k) => Some(k),
        None => match non_empty_trimmed(jwt_sub) {
            Some(k) => Some(k),
            None => non_empty_trimmed(ip_address),
        },
    }
}

/// The parts of a request that the multi-tier limiter keys on.
#[derive(Debug, Clone, PartialEq, Eq)]
pub struct RateLimitRequest {
    pub user_id: Option<String>,
    pub endpoint: Option<String>,
    pub ip_address: Option<String>,
}

/// A check's status, by limiter kind, as the JavaScript binding shows it.
pub struct JsRateLimitResult {
    pub allowed: bool,
    pub limit: u32,
    pub remaining: u32,
    pub retry_after_secs: u32,
    pub reset_after_secs: u32,
}

impl JsRateLimitResult {
    /// The binding's view of a status (numbers cut to 32 bits).
    pub fn from_status(value: RateLimitStatus) -> (r: JsRateLimitResult)
        ensures
            r.allowed == value.allowed,
            r.limit == value.limit as u32,
            r.remaining == value.remaining as u32,
            r.retry_after_secs == value.retry_after_secs as u32,
            r.reset_after_secs == value.reset_after_secs as u32,
    {
        JsRateLimitResult {
            allowed: value.allowed,
            limit: value.limit as u32,
            remaining: value.remaining as u32,
            retry_after_secs: value.retry_after_secs as u32,
            reset_after_secs: value.reset_after_secs as u32,
        }
    }
}

/// One tier to check: its name, the key of its bucket, and its rule.
pub struct TierCheck<R> {
    pub tier: String,
    pub key: String,
    pub rule: R,
}

/// What the multi-tier limiter does with a request: let an allow-listed
/// address through, or check the listed tiers in order.
pub enum TierPlan<R> {
    Bypass,
    Check(Vec<TierCheck<R>>),
}

/// The bucket key of an endpoint: `endpoint:` and the endpoint.
pub open spec fn endpoint_key_text(endpoint: Seq<char>) -> Seq<char> {
    "endpoint:"@ + endpoint
}

/// The bucket key of a user: `user:` and the user id.
pub open spec fn user_key_text(user: Seq<char>) -> Seq<char> {
    "user:"@ + user
}

/// The bucket key, and the dynamic-rule key, of an endpoint.
pub fn endpoint_key(endpoint: &str) -> (r: String)
    ensures
        r@ == endpoint_key_text(endpoint@),
{
    concat("endpoint:", endpoint)
}

/// The tiers, as (name, key) pairs, that a request not allow-listed is
/// checked against: global when it has a rule, the user when the request
/// names one and the user tier has a rule, the endpoint when the request
/// names one and it has a rule.
pub open spec fn planned_tiers(
    request: RateLimitRequest,
    has_global: bool,
    has_user: bool,
    has_endpoint: bool,
) -> Seq<(Seq<char>, Seq<char>)> {
    (if has_global { seq![("global"@, "global"@)] } else { Seq::empty() }) + (if request.user_id is Some
        && has_user {
        seq![("user"@, user_key_text(request.user_id->0@))]
    } else {
        Seq::empty()
    }) + (if request.endpoint is Some && has_endpoint {
        seq![("endpoint"@, endpoint_key_text(request.endpoint->0@))]
    } else {
        Seq::empty()
    })
}

/// True when `ip` is on the allow list.
pub open spec fn allow_listed(allowlist: Seq<String>, ip: Option<String>) -> bool {
    ip is Some && exists|i: int| 0 <= i < allowlist.len() && allowlist[i]@ == ip->0@
}

/// The (name, key) pairs of planned checks.
pub open spec fn check_names<R>(v: Seq<TierCheck<R>>) -> Seq<(Seq<char>, Seq<char>)> {
    v.map_values(|c: TierCheck<R>| (c.tier@, c.key@))
}

fn listed(allowlist: &Vec<String>, ip: &str) -> (r: bool)
    ensures
        r == exists|i: int| 0 <= i < allowlist@.len() && allowlist@[i]@ == ip@,
{
    let mut i: usize = 0;
    while i < allowlist.len()
        invariant
            i <= allowlist@.len(),
            forall|k: int| 0 <= k < i ==> allowlist@[k]@ != ip@,
        decreases allowlist@.len() - i,
    {
        if str_eq(allowlist[i].as_str(), ip) {
            return true;
        }
        i = i + 1;
    }
    false
}

/// Plans a multi-tier check.  `global`, `user` and `endpoint` are the rules
/// in force for the tiers (a dynamic rule, else the configured one).
pub fn plan_tiers<R>(
    request: &RateLimitRequest,
    allowlist: &Vec<String>,
    global: Option<R>,
    user: Option<R>,
    endpoint: Option<R>,
) -> (r: TierPlan<R>)
    ensures
        allow_listed(allowlist@, request.ip_address) ==> r is Bypass,
        !allow_listed(allowlist@, request.ip_address) ==> (r matches TierPlan::Check(v) && check_names(v@)
            == planned_tiers(*request, global is Some, user is Some, endpoint is Some) && (forall|i: int|
            0 <= i < v@.len() ==> (#[trigger] v@[i]).rule == if v@[i].tier@ == "global"@ {
                global->0
            } else if v@[i].tier@ == "user"@ {
                user->0
            } else {
                endpoint->0
            })),
{
    match &request.ip_address {
        Some(ip) => {
            if listed(allowlist, ip.as_str()) {
                return TierPlan::Bypass;
            }
        },
        None => {},
    }
    proof {
        reveal_strlit("global");
        reveal_strlit("user");
        reveal_strlit("endpoint");
    }
    let mut v: Vec<TierCheck<R>> = Vec::new();
    let ghost has_g = global is Some;
    let ghost has_u = user is Some;
    let ghost has_e = endpoint is Some;
    let ghost g0 = global;
    let ghost u0 = user;
    let ghost e0 = endpoint;
    assert("global"@ != "user"@ && "global"@ != "endpoint"@ && "user"@ != "endpoint"@) by {
        assert("global"@.len() != "user"@.len());
        assert("global"@.len() != "endpoint"@.len());
        assert("user"@.len() != "endpoint"@.len());
    }
    let ghost good = |c: TierCheck<R>| c.rule == if c.tier@ == "global"@ {
        g0->0
    } else if c.tier@ == "user"@ {
        u0->0
    } else {
        e0->0
    };
    match global {
        Some(rule) => {
            v.push(TierCheck { tier: owned("global"), key: owned("global"), rule });
        },
        None => {},
    }
    let ghost after_g = check_names(v@);
    assert(after_g =~= if has_g { seq![("global"@, "global"@)] } else { Seq::empty() });
    assert(forall|i: int| 0 <= i < v@.len() ==> good(#[trigger] v@[i]));
    let ghost vg = v@;
    match (&request.user_id, user) {
        (Some(id), Some(rule)) => {
            v.push(TierCheck { tier: owned("user"), key: concat("user:", id.as_str()), rule });
        },
        _ => {},
    }
    let ghost after_u = check_names(v@);
    assert(after_u =~= after_g + if request.user_id is Some && has_u {
        seq![("user"@, user_key_text(request.user_id->0@))]
    } else {
        Seq::empty()
    });
    assert forall|i: int| 0 <= i < v@.len() implies good(#[trigger] v@[i]) by {
        if i < vg.len() {
            assert(v@[i] == vg[i]);
        }
    }
    let ghost vu = v@;
    match (&request.endpoint, endpoint) {
        (Some(e), Some(rule)) => {
            v.push(TierCheck { tier: owned("endpoint"), key: endpoint_key(e.as_str()), rule });
        },
        _ => {},
    }
    assert(check_names(v@) =~= planned_tiers(*request, has_g, has_u, has_e));
    assert forall|i: int| 0 <= i < v@.len() implies good(#[trigger] v@[i]) by {
        if i < vu.len() {
            assert(v@[i] == vu[i]);
        }
    }
    TierPlan::Check(v)
}

/// The status of one checked tier.
#[derive(Debug, Clone, PartialEq, Eq)]
pub struct TierStatus {
    pub tier: String,
    pub key: String,
    pub status: RateLimitStatus,
}

/// The outcome of a multi-tier check.
#[derive(Debug, Clone, PartialEq, Eq)]
pub struct MultiTierRateLimitResult {
    pub allowed: bool,
    pub bypassed: bool,
    pub denied_by: Option<String>,
    pub tiers: Vec<TierStatus>,
}

/// The index of the first tier that was refused.
pub open spec fn first_denied(t: Seq<TierStatus>) -> Option<int> {
    if exists|i: int| 0 <= i < t.len() && !t[i].status.allowed {
        Some(choose|i: int| 0 <= i < t.len() && !t[i].status.allowed && forall|k: int| 0 <= k < i ==> (#[trigger] t[k]).status.allowed)
    } else {
        None
    }
}

/// The outcome for an allow-listed address.
pub fn bypass_result() -> (r: MultiTierRateLimitResult)
    ensures
        r.allowed && r.bypassed && r.denied_by is None && r.tiers@.len() == 0,
{
    MultiTierRateLimitResult { allowed: true, bypassed: true, denied_by: None, tiers: Vec::new() }
}

/// The outcome of the checked tiers: refused by the first tier that refused,
/// allowed when none did.
pub fn combine_tiers(tiers: Vec<TierStatus>) -> (r: MultiTierRateLimitResult)
    ensures
        r.tiers@ == tiers@,
        !r.bypassed,
        r.allowed == (first_denied(tiers@) is None),
        match first_denied(tiers@) {
            Some(i) => r.denied_by matches Some(d) && d@ == tiers@[i].tier@,
            None => r.denied_by is None,
        },
{
    let mut i: usize = 0;
    while i < tiers.len()
        invariant
            i <= tiers@.len(),
            forall|k: int| 0 <= k < i ==> (#[trigger] tiers@[k]).status.allowed,
        decreases tiers@.len() - i,
    {
        if !tiers[i].status.allowed {
            let d = tiers[i].tier.clone();
            proof {
                let j = choose|j: int| 0 <= j < tiers@.len() && !tiers@[j].status.allowed && forall|k: int| 0 <= k < j ==> (#[trigger] tiers@[k]).status.allowed;
                if j < i {
                    assert(tiers@[j].status.allowed);
                }
                if i < j {
                    assert(tiers@[i as int].status.allowed);
                }
            }
            return MultiTierRateLimitResult { allowed: false, bypassed: false, denied_by: Some(d), tiers };
        }
        i = i + 1;
    }
    MultiTierRateLimitResult { allowed: true, bypassed: false, denied_by: None, tiers }
}

/// The logs of a limiter, by client key.
pub type LogTable = dashmap::DashMap<String, SlidingWindowLog>;

/// A log as plain values: its request times, window and maximum.
pub type LogView = (Seq<u64>, u64, usize);

/// The log view of a log.
pub open spec fn log_view(l: SlidingWindowLog) -> LogView {
    (l.requests@, l.window_duration, l.max_requests)
}

/// The logs a table holds, by client key.
pub uninterp spec fn log_table(m: LogTable) -> Map<Seq<char>, LogView>;

/// The empty log map.
pub open spec fn no_logs() -> Map<Seq<char>, LogView> {
    Map::empty()
}

/// `DashMap::new`.  Claimed: the table is empty.
#[verifier::external_body]
fn new_log_table() -> (r: LogTable)
    ensures
        log_table(r) == no_logs(),
{
    dashmap::DashMap::new()
}

/// `DashMap::remove`, handing out the value.  Claimed: the log of `key`
/// comes out exactly when the table held one, and the table then lacks it.
#[verifier::external_body]
fn take_log(m: &mut LogTable, key: &str) -> (r: Option<SlidingWindowLog>)
    ensures
        log_table(*final(m)) == log_table(*old(m)).remove(key@),
        r is Some <==> log_table(*old(m)).contains_key(key@),
        r matches Some(l) ==> log_view(l) == log_table(*old(m))[key@],
{
    m.remove(key).map(|(_, l)| l)
}

/// `DashMap::insert`.  Claimed: the table then holds `log` for `key`, the
/// rest unchanged.
#[verifier::external_body]
fn put_log(m: &mut LogTable, key: String, log: SlidingWindowLog)
    ensures
        log_table(*final(m)) == log_table(*old(m)).insert(key@, log_view(log)),
{
    let _ = m.insert(key, log);
}

/// `DashMap::len`.  Claimed: the number of logs held.
#[verifier::external_body]
fn log_count(m: &LogTable) -> (r: usize)
    ensures
        r == log_table(*m).len(),
{
    m.len()
}

/// A sliding-window limiter keeping one log per client key.
pub struct SlidingWindowRateLimiter {
    logs: LogTable,
    window_duration: u64,
    max_requests: usize,
    origin: std::time::Instant,
}

/// A limiter as plain values: its logs by key, its window and its maximum.
pub type LimiterView = (Map<Seq<char>, LogView>, u64, usize);

/// The request times a limiter's view holds for `key`.
pub open spec fn view_log(v: LimiterView, key: Seq<char>) -> Option<Seq<u64>> {
    if v.0.contains_key(key) { Some(v.0[key].0) } else { None }
}

/// The consistency of a limiter's view: every log has the limiter's window
/// and maximum, both nonzero.
pub open spec fn view_wf(v: LimiterView) -> bool {
    &&& forall|k: Seq<char>| #[trigger] v.0.contains_key(k) ==> v.0[k].1 == v.1 && v.0[k].2 == v.2
    &&& v.1 > 0 && v.2 > 0
}

/// What a check of `key` at `now` does, taking the limiter from `old` to
/// `new`: the key's log (empty when new) is checked as a sliding window
/// and kept, the answer reports it, and every other log stays.
pub open spec fn checked_at(old: SlidingWindowRateLimiter, new: SlidingWindowRateLimiter, key: Seq<char>, now: u64, r: RateLimitStatus) -> bool {
    &&& new.window() == old.window()
    &&& new.max() == old.max()
    &&& ({
        let before = match old.log(key) { Some(l) => l, None => Seq::empty() };
        match new.log(key) {
            Some(after) => allowed_at(before, old.window(), old.max(), now, r.allowed, after)
                && r.limit == old.max()
                && r.remaining == (if after.len() >= old.max() { 0 } else { old.max() - after.len() })
                && r.retry_after_secs == retry_secs(r.allowed, after, old.window(), old.max(), now)
                && r.reset_after_secs == r.retry_after_secs
                && (!r.allowed ==> r.retry_after_secs >= 1),
            None => false,
        }
    })
    &&& forall|k: Seq<char>| k != key ==> new.log(k) == old.log(k)
}

impl SlidingWindowRateLimiter {
    /// The request times logged for `key`.
    pub closed spec fn log(&self, key: Seq<char>) -> Option<Seq<u64>> {
        if log_table(self.logs).contains_key(key) {
            Some(log_table(self.logs)[key].0)
        } else {
            None
        }
    }

    /// The window every log uses.
    pub closed spec fn window(&self) -> u64 {
        self.window_duration
    }

    /// The requests every window admits.
    pub closed spec fn max(&self) -> usize {
        self.max_requests
    }

    /// The number of client logs.
    pub closed spec fn log_count(&self) -> nat {
        log_table(self.logs).len()
    }

    /// The internal consistency of the limiter: every log has its window and
    /// maximum, both nonzero.
    pub closed spec fn wf(&self) -> bool {
        &&& forall|k: Seq<char>| #[trigger] log_table(self.logs).contains_key(k) ==> log_table(self.logs)[k].1
            == self.window_duration && log_table(self.logs)[k].2 == self.max_requests
        &&& self.window_duration > 0 && self.max_requests > 0
    }

    /// The limiter as plain values: its logs by key, its window and its
    /// maximum.
    pub closed spec fn limiter_view(&self) -> LimiterView {
        (log_table(self.logs), self.window_duration, self.max_requests)
    }

    /// What `log`, `window`, `max` and `wf` say is read off the limiter's
    /// plain view.
    pub proof fn lemma_limiter_view(&self)
        ensures
            forall|k: Seq<char>| #[trigger] self.log(k) == view_log(self.limiter_view(), k),
            self.window() == self.limiter_view().1,
            self.max() == self.limiter_view().2,
            self.wf() == view_wf(self.limiter_view()),
    {
    }

    /// A well-formed limiter has a nonzero window and maximum.
    pub proof fn lemma_positive(&self)
        requires
            self.wf(),
        ensures
            self.window() > 0 && self.max() > 0,
    {
    }

    /// A limiter with no logs; fails on a zero window or maximum.
    pub fn new(window_duration: u64, max_requests: usize) -> (r: Result<SlidingWindowRateLimiter, RateLimiterError>)
        ensures
            (window_duration == 0 || max_requests == 0) <==> r is Err,
            r matches Err(e) ==> e is InvalidConfig,
            r matches Ok(l) ==> l.wf() && l.window() == window_duration && l.max() == max_requests
                && forall|k: Seq<char>| l.log(k) is None,
    {
        if window_duration == 0 || max_requests == 0 {
            return Err(RateLimiterError::InvalidConfig);
        }
        Ok(SlidingWindowRateLimiter { logs: new_log_table(), window_duration, max_requests, origin: instant_now() })
    }

    /// The number of client keys with a log.
    pub fn logs_len(&self) -> (r: usize)
        ensures
            r == self.log_count(),
    {
        log_count(&self.logs)
    }

    /// Checks a request of `key` at the current time of the monotonic
    /// clock (counted from the limiter's making).  The limiter is held
    /// exclusively, so the check always gives a status.
    pub fn check_key(&mut self, key: &str) -> (r: Result<RateLimitStatus, RateLimiterError>)
        requires
            old(self).wf(),
        ensures
            final(self).wf(),
            r is Ok,
            final(self).window() == old(self).window() && final(self).max() == old(self).max(),
            r matches Ok(s) ==> s.limit == old(self).max(),
            r matches Ok(s) ==> exists|now: u64| checked_at(*old(self), *final(self), key@, now, s),
    {
        let now = nanos_since(&self.origin);
        let s = self.check_key_at(key, now);
        assert(checked_at(*old(self), *self, key@, now, s));
        assert(exists|t: u64| checked_at(*old(self), *self, key@, t, s));
        Ok(s)
    }

    /// Checks a request of `key` at `now` against its log (a new, empty log
    /// for a key not seen before).
    pub fn check_key_at(&mut self, key: &str, now: u64) -> (r: RateLimitStatus)
        requires
            old(self).wf(),
        ensures
            final(self).wf(),
            checked_at(*old(self), *final(self), key@, now, r),
    {
        let mut log = match take_log(&mut self.logs, key) {
            Some(l) => l,
            None => {
                let l = SlidingWindowLog {
                    requests: VecDeque::new(),
                    window_duration: self.window_duration,
                    max_requests: self.max_requests,
                    origin: instant_now(),
                };
                assert(l.requests@ =~= Seq::<u64>::empty());
                l
            },
        };
        let ghost before = log.requests@;
        let status = window_status(&mut log, now);
        proof {
            if !status.allowed {
                refusal_waits_a_second(before, log.window_duration, log.max_requests, now, log.requests@);
            }
        }
        put_log(&mut self.logs, key.to_string(), log);
        proof {
            assert forall|k: Seq<char>| #[trigger] log_table(self.logs).contains_key(k) implies log_table(self.logs)[k].1
                == self.window_duration && log_table(self.logs)[k].2 == self.max_requests by {
                if k != key@ {
                    assert(log_table(old(self).logs).contains_key(k));
                }
            }
        }
        status
    }
}

/// The times of `s` later than `cutoff`, in order.
pub open spec fn later_than(s: Seq<i64>, cutoff: int) -> Seq<i64>
    decreases s.len(),
{
    if s.len() == 0 {
        Seq::empty()
    } else {
        later_than(s.drop_last(), cutoff) + if s.last() > cutoff { seq![s.last()] } else { Seq::empty() }
    }
}

/// What the per-key window check reports; times are microseconds since the
/// Unix epoch.
#[derive(Debug, Clone, PartialEq, Eq)]
pub struct RecentStatus {
    pub allowed: bool,
    pub limit: u32,
    pub remaining: u32,
    pub reset_at: i64,
}

proof fn lemma_later_than_len(s: Seq<i64>, cutoff: int)
    ensures
        later_than(s, cutoff).len() <= s.len(),
        forall|i: int| 0 <= i < later_than(s, cutoff).len() ==> exists|j: int| 0 <= j < s.len() && s[j] == #[trigger] later_than(s, cutoff)[i],
    decreases s.len(),
{
    if s.len() > 0 {
        lemma_later_than_len(s.drop_last(), cutoff);
        let p = later_than(s.drop_last(), cutoff);
        assert forall|i: int| 0 <= i < later_than(s, cutoff).len() implies exists|j: int| 0 <= j < s.len() && s[j] == #[trigger] later_than(s, cutoff)[i] by {
            if i < p.len() {
                let j = choose|j: int| 0 <= j < s.drop_last().len() && s.drop_last()[j] == p[i];
                assert(s[j] == p[i]);
            } else {
                assert(s[s.len() - 1] == later_than(s, cutoff)[i]);
            }
        }
    }
}

/// The one-minute window check of a key's request times at `now`: times
/// older than the window are dropped; the request is admitted (and logged)
/// while fewer than `limit` remain; the window resets a window after its
/// oldest request (or after `now` when it has none).
pub fn check_recent(entries: &mut Vec<i64>, now: i64, window: i64, limit: u32) -> (r: RecentStatus)
    requires
        window >= 0,
        now - window >= i64::MIN,
        now + window <= i64::MAX,
        forall|i: int| 0 <= i < old(entries)@.len() ==> #[trigger] old(entries)@[i] + window <= i64::MAX,
    ensures
        ({
            let kept = later_than(old(entries)@, now - window);
            &&& r.allowed == (kept.len() < limit)
            &&& final(entries)@ == if r.allowed { kept.push(now) } else { kept }
            &&& r.limit == limit
            &&& r.remaining == if r.allowed { (limit - final(entries)@.len()) as u32 } else { 0 }
            &&& r.reset_at == if final(entries)@.len() > 0 { final(entries)@[0] + window } else { now + window }
        }),
{
    let cutoff = now - window;
    let ghost olds = old(entries)@;
    let mut kept: Vec<i64> = Vec::new();
    let mut i: usize = 0;
    assert(olds.take(0) =~= Seq::<i64>::empty());
    while i < entries.len()
        invariant
            i <= olds.len(),
            entries@ == olds,
            kept@ == later_than(olds.take(i as int), cutoff as int),
        decreases olds.len() - i,
    {
        assert(olds.take(i + 1).drop_last() =~= olds.take(i as int));
        if entries[i] > cutoff {
            kept.push(entries[i]);
        }
        i = i + 1;
    }
    assert(olds.take(olds.len() as int) =~= olds);
    proof {
        lemma_later_than_len(olds, cutoff as int);
    }
    let allowed = (kept.len() as u64) < (limit as u64);
    if allowed {
        kept.push(now);
    }
    let remaining: u32 = if allowed { (limit as usize - kept.len()) as u32 } else { 0 };
    let reset_at = if kept.len() > 0 {
        proof {
            if !(allowed && kept@.len() == 1) {
                let j = choose|j: int| 0 <= j < olds.len() && olds[j] == later_than(olds, cutoff as int)[0];
            }
        }
        kept[0] + window
    } else {
        now + window
    };
    *entries = kept;
    RecentStatus { allowed, limit, remaining, reset_at }
}

} // verus!
