//! The API gateway's plugins: JWT authentication, per-path rate limiting,
//! request and response transformation, and resilient forwarding with
//! retries and backoff; and the checks on its configuration.

use vstd::prelude::*;
use crate::http::{
    lookup, pair_views, remove_header, set_header, without_name, HttpError, Method, Request, Response,
    find_pair, ip_of, peer_ip,
};
use crate::rate_limit::{
    allowed_at, opt_view, retry_secs, view_log, view_wf, LimiterView, RateLimitStatus, SlidingWindowRateLimiter,
};
use crate::text::{
    chars_of, concat, decimal, decimal_string, has_prefix, owned, parse_usize, parse_usize_spec, slice_range,
    str_eq, str_starts_with,
    string_from_chars, to_lowercase, to_uppercase, trim, trim_str, unicode_lowercase, unicode_uppercase,
};

verus! {

/// The state a request carries through the plugin chain.
pub struct Context {
    pub request: Request,
    pub response: Option<Response>,
    pub metadata: Vec<(String, String)>,
    pub upstream_url: Option<String>,
}

impl Context {
    /// A fresh context for `request`.
    pub fn new(request: Request) -> (r: Context)
        ensures
            r.request == request,
            r.response is None,
            r.metadata@.len() == 0,
            r.upstream_url is None,
    {
        Context { request, response: None, metadata: Vec::new(), upstream_url: None }
    }
}

/// One route of the gateway.
#[derive(Debug, Clone)]
pub struct RouteConfig {
    pub method: String,
    pub path: String,
    pub upstream: String,
}

/// The transformation plugin's configuration.
#[derive(Debug, Clone)]
pub struct TransformConfig {
    /// Response headers to remove.
    pub strip_headers: Vec<String>,
    /// A prefix to strip from request paths.
    pub prefix_strip: Option<String>,
    /// Headers to add to every response.
    pub inject_response_headers: Vec<(String, String)>,
    /// Request body fields to rename (old name, new name).
    pub body_transformations: Vec<(String, String)>,
    /// Response body fields to remove.
    pub response_body_strip: Vec<String>,
}

/// The rate limiting plugin's configuration.
#[derive(Debug, Clone)]
pub struct RateLimitConfig {
    /// Requests allowed per minute, by path prefix.
    pub limits: Vec<(String, u32)>,
    /// The header that carries API keys.
    pub api_key_header: String,
}

/// The header that carries API keys unless configured otherwise.
pub fn default_api_key_header() -> (r: String)
    ensures
        r@ == "x-api-key"@,
{
    owned("x-api-key")
}

/// The forwarder's configuration.
#[derive(Debug, Clone, Copy)]
pub struct UpstreamConfig {
    /// Seconds one attempt may take.
    pub timeout_sec: u64,
    /// Attempts after the first.
    pub max_retries: u32,
    /// The first backoff, in milliseconds.
    pub base_backoff_ms: u64,
}

/// The default seconds an attempt may take.
pub fn default_timeout() -> (r: u64)
    ensures
        r == 30,
{
    30
}

/// The default number of retries.
pub fn default_retries() -> (r: u32)
    ensures
        r == 3,
{
    3
}

/// The default first backoff in milliseconds.
pub fn default_base_backoff() -> (r: u64)
    ensures
        r == 100,
{
    100
}

impl Default for UpstreamConfig {
    fn default() -> (r: Self)
        ensures
            r.timeout_sec == 30 && r.max_retries == 3 && r.base_backoff_ms == 100,
    {
        UpstreamConfig { timeout_sec: 30, max_retries: 3, base_backoff_ms: 100 }
    }
}

/// The JWT plugin's configuration.
#[derive(Debug, Clone)]
pub struct AuthConfig {
    pub secret: String,
    pub algorithm: Option<String>,
    pub issuer: Option<String>,
    pub audience: Option<String>,
    pub bypass_paths: Vec<String>,
}

/// The gateway's configuration.
#[derive(Debug, Clone)]
pub struct GatewayConfig {
    pub listen_addr: String,
    pub routes: Vec<RouteConfig>,
    pub auth: Option<AuthConfig>,
    pub transform: Option<TransformConfig>,
    pub rate_limit: Option<RateLimitConfig>,
    pub upstream: Option<UpstreamConfig>,
}

/// True when the limit of prefix `i` applies to `path`: the longest
/// configured prefix of the path.
pub open spec fn applies(limits: Seq<(String, u32)>, path: Seq<char>, i: int) -> bool {
    &&& 0 <= i < limits.len()
    &&& has_prefix(path, limits[i].0@)
    &&& forall|k: int| 0 <= k < limits.len() && has_prefix(path, (#[trigger] limits[k]).0@) ==> limits[k].0@.len() <= limits[i].0@.len()
    &&& forall|k: int| 0 <= k < i && has_prefix(path, (#[trigger] limits[k]).0@) ==> limits[k].0@.len() < limits[i].0@.len()
}

/// The limit for `path`: that of its longest configured prefix (the first
/// such prefix listed).
pub fn select_limit(limits: &Vec<(String, u32)>, path: &str) -> (r: Option<u32>)
    ensures
        r is None <==> forall|k: int| 0 <= k < limits@.len() ==> !has_prefix(path@, (#[trigger] limits@[k]).0@),
        r matches Some(l) ==> exists|i: int| applies(limits@, path@, i) && l == limits@[i].1,
{
    let mut best: Option<usize> = None;
    let mut best_len: usize = 0;
    let mut i: usize = 0;
    while i < limits.len()
        invariant
            i <= limits@.len(),
            best is None ==> forall|k: int| 0 <= k < i ==> !has_prefix(path@, (#[trigger] limits@[k]).0@),
            best matches Some(j) ==> j < i && has_prefix(path@, limits@[j as int].0@) && best_len == limits@[j as int].0@.len()
                && (forall|k: int| 0 <= k < i && has_prefix(path@, (#[trigger] limits@[k]).0@) ==> limits@[k].0@.len() <= best_len)
                && (forall|k: int| 0 <= k < j && has_prefix(path@, (#[trigger] limits@[k]).0@) ==> limits@[k].0@.len() < best_len),
        decreases limits@.len() - i,
    {
        if str_starts_with(path, limits[i].0.as_str()) {
            let plen = chars_of(limits[i].0.as_str()).len();
            match best {
                None => {
                    best = Some(i);
                    best_len = plen;
                },
                Some(_) => {
                    if plen > best_len {
                        best = Some(i);
                        best_len = plen;
                    }
                },
            }
        }
        i = i + 1;
    }
    match best {
        None => None,
        Some(j) => {
            assert(applies(limits@, path@, j as int));
            Some(limits[j].1)
        },
    }
}

/// The key a request is limited under: its API key header (the configured
/// name, lowercased), else the authenticated subject, else its address.
pub open spec fn rate_key_spec(headers: Seq<(Seq<char>, Seq<char>)>, api_key_header: Seq<char>, metadata: Seq<(Seq<char>, Seq<char>)>, peer: Seq<char>) -> Seq<char> {
    match lookup(headers, unicode_lowercase(api_key_header)) {
        Some(k) => "api-key:"@ + k,
        None => match lookup(metadata, "auth_sub"@) {
            Some(s) => "user:"@ + s,
            None => "ip:"@ + ip_of(peer),
        },
    }
}

/// The key a request is limited under.
pub fn rate_limit_key(ctx: &Context, api_key_header: &str) -> (r: String)
    ensures
        r@ == rate_key_spec(pair_views(ctx.request.headers@), api_key_header@, pair_views(ctx.metadata@), ctx.request.peer_addr@),
{
    let name = to_lowercase(api_key_header);
    match find_pair(&ctx.request.headers, name.as_str()) {
        Some(k) => concat("api-key:", k.as_str()),
        None => match find_pair(&ctx.metadata, "auth_sub") {
            Some(s) => concat("user:", s.as_str()),
            None => {
                let ip = peer_ip(ctx.request.peer_addr.as_str());
                concat("ip:", ip.as_str())
            },
        },
    }
}

broadcast use vstd::std_specs::hash::group_hash_axioms;

/// What the rate limiting plugin does with a request.
pub enum RateDecision {
    /// No limit applies (or it cannot be enforced): pass the request on.
    Skip,
    /// Refuse the request with this response.
    Reject(Response),
    /// Pass the request on, and report this status on its response.
    Allow(RateLimitStatus),
}

/// The body of a refusal.
pub open spec fn rejection_text(retry_after: u64) -> Seq<char> {
    "Rate limit exceeded. Try again in "@ + decimal(retry_after as nat) + " seconds."@
}

/// The headers of a refusal, after the server header.
pub open spec fn rejection_headers(s: RateLimitStatus) -> Seq<(Seq<char>, Seq<char>)> {
    seq![
        crate::http::server_header(),
        ("retry-after"@, decimal(s.retry_after_secs as nat)),
        ("x-ratelimit-limit"@, decimal(s.limit as nat)),
        ("x-ratelimit-remaining"@, "0"@),
        ("x-ratelimit-reset"@, decimal(s.reset_after_secs as nat)),
    ]
}

/// The refusal of a request over its limit.
pub fn rejection_response(s: &RateLimitStatus) -> (r: Response)
    ensures
        r.status == 429,
        pair_views(r.headers@) == rejection_headers(*s),
        r.body@ == vstd::utf8::encode_utf8(rejection_text(s.retry_after_secs)),
{
    let mut res = Response::new(429);
    let mut headers: Vec<(String, String)> = Vec::new();
    headers.push((owned("Server"), owned("Ferrum-Core/0.7.0")));
    headers.push((owned("retry-after"), decimal_string(s.retry_after_secs)));
    headers.push((owned("x-ratelimit-limit"), decimal_string(s.limit)));
    headers.push((owned("x-ratelimit-remaining"), owned("0")));
    headers.push((owned("x-ratelimit-reset"), decimal_string(s.reset_after_secs)));
    assert(pair_views(headers@) =~= rejection_headers(*s));
    res.headers = headers;
    let a = concat("Rate limit exceeded. Try again in ", decimal_string(s.retry_after_secs).as_str());
    let text = concat(a.as_str(), " seconds.");
    res.body = vstd::slice::slice_to_vec(text.as_str().as_bytes());
    res
}

/// The headers an allowed request's response reports, set over those it
/// has.
pub open spec fn with_rate_headers(hs: Seq<(Seq<char>, Seq<char>)>, s: RateLimitStatus) -> Seq<(Seq<char>, Seq<char>)> {
    let a = without_name(hs, "x-ratelimit-limit"@).push(("x-ratelimit-limit"@, decimal(s.limit as nat)));
    let b = without_name(a, "x-ratelimit-remaining"@).push(("x-ratelimit-remaining"@, decimal(s.remaining as nat)));
    without_name(b, "x-ratelimit-reset"@).push(("x-ratelimit-reset"@, decimal(s.reset_after_secs as nat)))
}

/// Reports a status on the response of an allowed request.
pub fn add_rate_headers(res: &mut Response, s: &RateLimitStatus)
    ensures
        final(res).status == old(res).status,
        final(res).body == old(res).body,
        pair_views(final(res).headers@) == with_rate_headers(pair_views(old(res).headers@), *s),
{
    set_header(&mut res.headers, owned("x-ratelimit-limit"), decimal_string(s.limit));
    set_header(&mut res.headers, owned("x-ratelimit-remaining"), decimal_string(s.remaining));
    set_header(&mut res.headers, owned("x-ratelimit-reset"), decimal_string(s.reset_after_secs));
}

/// The limit that applies to `path`, if any.
pub open spec fn chosen_limit(limits: Seq<(String, u32)>, path: Seq<char>) -> Option<u32> {
    if exists|i: int| applies(limits, path, i) {
        Some(limits[choose|i: int| applies(limits, path, i)].1)
    } else {
        None
    }
}

proof fn lemma_applies_unique(limits: Seq<(String, u32)>, path: Seq<char>, i: int, j: int)
    requires
        applies(limits, path, i),
        applies(limits, path, j),
    ensures
        i == j,
{
    if i < j {
        assert(limits[i].0@.len() < limits[j].0@.len());
        assert(limits[i].0@.len() <= limits[j].0@.len());
        assert(limits[j].0@.len() <= limits[i].0@.len());
    }
    if j < i {
        assert(limits[j].0@.len() < limits[i].0@.len());
        assert(limits[i].0@.len() <= limits[j].0@.len());
    }
}

/// True when two plugins hold the same logs.
pub open spec fn same_logs(a: &RateLimitPlugin, b: &RateLimitPlugin) -> bool {
    forall|l: u32, k: Seq<char>| #[trigger] b.logged(l, k) == a.logged(l, k)
}

/// The per-path rate limiting plugin: one limiter per configured limit,
/// each allowing that many requests per minute and key.
pub struct RateLimitPlugin {
    config: RateLimitConfig,
    limiters: LimiterTable,
}

/// The plugin's limiters, by limit.
pub type LimiterTable = dashmap::DashMap<u32, SlidingWindowRateLimiter>;

/// The limiters a table holds, each as its plain view, by limit.
pub uninterp spec fn limiter_table(m: LimiterTable) -> Map<u32, LimiterView>;

/// The empty limiter map.
pub open spec fn no_limiters() -> Map<u32, LimiterView> {
    Map::empty()
}

/// `DashMap::new`.  Claimed: the table is empty.
#[verifier::external_body]
fn new_limiter_table() -> (r: LimiterTable)
    ensures
        limiter_table(r) == no_limiters(),
{
    dashmap::DashMap::new()
}

/// `DashMap::remove`, handing out the value.  Claimed: the limiter of
/// `limit` comes out exactly when the table held one, and the table then
/// lacks it.
#[verifier::external_body]
fn take_limiter(m: &mut LimiterTable, limit: u32) -> (r: Option<SlidingWindowRateLimiter>)
    ensures
        limiter_table(*final(m)) == limiter_table(*old(m)).remove(limit),
        r is Some <==> limiter_table(*old(m)).contains_key(limit),
        r matches Some(l) ==> l.limiter_view() == limiter_table(*old(m))[limit],
{
    m.remove(&limit).map(|(_, l)| l)
}

/// `DashMap::insert`.  Claimed: the table then holds `limiter` for `limit`,
/// the rest unchanged.
#[verifier::external_body]
fn put_limiter(m: &mut LimiterTable, limit: u32, limiter: SlidingWindowRateLimiter)
    ensures
        limiter_table(*final(m)) == limiter_table(*old(m)).insert(limit, limiter.limiter_view()),
{
    let _ = m.insert(limit, limiter);
}

/// One minute in nanoseconds: the plugin's window.
pub const RATE_WINDOW: u64 = 60_000_000_000;

/// The status a check under `limit` reports when it leaves the key's log
/// at `after` at time `now`.
pub open spec fn window_report(limit: u32, allowed: bool, after: Seq<u64>, now: u64) -> RateLimitStatus {
    let w = retry_secs(allowed, after, RATE_WINDOW, limit as usize, now);
    RateLimitStatus {
        allowed,
        limit: limit as u64,
        remaining: if after.len() >= limit { 0u64 } else { (limit - after.len()) as u64 },
        retry_after_secs: w,
        reset_after_secs: w,
    }
}

impl RateLimitPlugin {
    /// The plugin's configuration.
    pub closed spec fn config_view(&self) -> RateLimitConfig {
        self.config
    }

    /// The requests logged for `key` under limit `limit`.
    pub closed spec fn logged(&self, limit: u32, key: Seq<char>) -> Option<Seq<u64>> {
        if limiter_table(self.limiters).contains_key(limit) {
            view_log(limiter_table(self.limiters)[limit], key)
        } else {
            None
        }
    }

    /// The internal consistency of the plugin.
    pub closed spec fn wf(&self) -> bool {
        forall|l: u32| #[trigger] limiter_table(self.limiters).contains_key(l) ==> view_wf(limiter_table(self.limiters)[l])
            && limiter_table(self.limiters)[l].1 == RATE_WINDOW && limiter_table(self.limiters)[l].2 == l
    }

    /// A plugin with no requests seen.
    pub fn new(config: RateLimitConfig) -> (r: RateLimitPlugin)
        ensures
            r.wf(),
            r.config_view() == config,
            forall|l: u32, k: Seq<char>| r.logged(l, k) is None,
    {
        RateLimitPlugin { config, limiters: new_limiter_table() }
    }

    /// Decides on a request at `now`: the limit of the longest configured
    /// prefix of its path applies to its key; with no such limit (or a zero
    /// limit, which no limiter enforces) it passes.
    pub fn check_at(&mut self, ctx: &Context, now: u64) -> (r: RateDecision)
        requires
            old(self).wf(),
        ensures
            final(self).wf(),
            final(self).config_view() == old(self).config_view(),
            ({
                let key = rate_key_spec(pair_views(ctx.request.headers@), old(self).config_view().api_key_header@, pair_views(ctx.metadata@), ctx.request.peer_addr@);
                match chosen_limit(old(self).config_view().limits@, ctx.request.path@) {
                    None => r is Skip && same_logs(old(self), final(self)),
                    Some(limit) => if limit == 0 {
                        r is Skip && same_logs(old(self), final(self))
                    } else {
                        let before = match old(self).logged(limit, key) { Some(x) => x, None => Seq::empty() };
                        (forall|l: u32, k: Seq<char>| (l != limit || k != key) ==> #[trigger] final(self).logged(l, k) == old(self).logged(l, k))
                        && match final(self).logged(limit, key) {
                            Some(after) => match r {
                                RateDecision::Allow(s) => s == window_report(limit, true, after, now)
                                    && allowed_at(before, RATE_WINDOW, limit as usize, now, true, after),
                                RateDecision::Reject(resp) => allowed_at(before, RATE_WINDOW, limit as usize, now, false, after)
                                    && resp.status == 429
                                    && pair_views(resp.headers@) == rejection_headers(window_report(limit, false, after, now))
                                    && resp.body@ == vstd::utf8::encode_utf8(rejection_text(window_report(limit, false, after, now).retry_after_secs))
                                    && window_report(limit, false, after, now).retry_after_secs >= 1,
                                RateDecision::Skip => false,
                            },
                            None => false,
                        }
                    },
                }
            }),
    {
        let limit = match select_limit(&self.config.limits, ctx.request.path.as_str()) {
            None => {
                assert(!exists|i: int| applies(self.config.limits@, ctx.request.path@, i));
                return RateDecision::Skip;
            },
            Some(l) => l,
        };
        proof {
            let limits = self.config.limits@;
            let i = choose|i: int| applies(limits, ctx.request.path@, i) && limit == limits[i].1;
            let c = choose|c: int| applies(limits, ctx.request.path@, c);
            lemma_applies_unique(limits, ctx.request.path@, i, c);
            assert(chosen_limit(limits, ctx.request.path@) == Some(limit));
        }
        let key = rate_limit_key(ctx, self.config.api_key_header.as_str());
        let ghost t0 = limiter_table(self.limiters);
        let mut limiter = match take_limiter(&mut self.limiters, limit) {
            Some(l) => {
                proof {
                    assert(t0.contains_key(limit));
                    l.lemma_limiter_view();
                    l.lemma_positive();
                    assert(forall|k: Seq<char>| #[trigger] l.log(k) == old(self).logged(limit, k));
                }
                l
            },
            None => match SlidingWindowRateLimiter::new(RATE_WINDOW, limit as usize) {
                Ok(l) => {
                    assert(forall|k: Seq<char>| #[trigger] l.log(k) == old(self).logged(limit, k));
                    l
                },
                Err(_) => {
                    assert(limiter_table(self.limiters) =~= t0);
                    assert(limit == 0);
                    return RateDecision::Skip;
                },
            },
        };
        assert(limit != 0);
        assert(forall|k: Seq<char>| #[trigger] limiter.log(k) == old(self).logged(limit, k));
        assert(forall|l: u32| l != limit ==> (#[trigger] limiter_table(self.limiters).contains_key(l)) == t0.contains_key(l));
        let ghost before_log = limiter.log(key@);
        let status = limiter.check_key_at(key.as_str(), now);
        proof {
            limiter.lemma_limiter_view();
        }
        put_limiter(&mut self.limiters, limit, limiter);
        proof {
            let t = limiter_table(self.limiters);
            assert forall|l: u32| #[trigger] t.contains_key(l) implies view_wf(t[l])
                && t[l].1 == RATE_WINDOW && t[l].2 == l by {
                if l != limit {
                    assert(t0.contains_key(l));
                }
            }
            assert(self.logged(limit, key@) == limiter.log(key@));
            assert forall|l: u32, k: Seq<char>| (l != limit || k != key@) implies #[trigger] self.logged(l, k) == old(self).logged(l, k) by {
                if l == limit {
                    assert(self.logged(l, k) == limiter.log(k));
                }
            }
        }
        if status.allowed {
            RateDecision::Allow(status)
        } else {
            let resp = rejection_response(&status);
            RateDecision::Reject(resp)
        }
    }
}

/// `serde_json::Value`, carried through opaquely.
#[verifier::external_type_specification]
#[verifier::external_body]
pub struct ExJsonValue(serde_json::Value);

/// `serde_json::Map`, a JSON object.
#[verifier::external_type_specification]
#[verifier::external_body]
#[verifier::reject_recursive_types(K)]
#[verifier::reject_recursive_types(V)]
pub struct ExJsonMap<K, V>(serde_json::Map<K, V>);

/// What a JSON object holds: each field name with the compact JSON text of
/// its value.
pub uninterp spec fn json_fields(m: serde_json::Map<String, serde_json::Value>) -> Map<Seq<char>, Seq<u8>>;

/// The compact JSON text of a value.
pub uninterp spec fn json_value_text(v: serde_json::Value) -> Seq<u8>;

/// The fields of the object that `serde_json::from_slice` reads from
/// `bytes`, or `None` when the bytes are not the JSON text of an object.
pub uninterp spec fn json_object_fields(bytes: Seq<u8>) -> Option<Map<Seq<char>, Seq<u8>>>;

/// The JSON text `serde_json::to_vec` writes for an object with `fields`
/// (its map keeps field names sorted, so the text depends on them alone).
pub uninterp spec fn json_object_text(fields: Map<Seq<char>, Seq<u8>>) -> Seq<u8>;

/// `serde_json::from_slice::<Value>`, keeping an object.  Claimed: the
/// result is an object exactly when the bytes are an object's JSON text,
/// and then it holds the fields read from them.
#[verifier::external_body]
fn parse_json_object(bytes: &[u8]) -> (r: Option<serde_json::Map<String, serde_json::Value>>)
    ensures
        r is None <==> json_object_fields(bytes@) is None,
        r matches Some(m) ==> json_object_fields(bytes@) == Some(json_fields(m)),
{
    match serde_json::from_slice::<serde_json::Value>(bytes) {
        Ok(serde_json::Value::Object(m)) => Some(m),
        _ => None,
    }
}

/// `serde_json::Map::remove`.  Claimed: the field is gone afterwards, and
/// its value comes back exactly when it was there.
#[verifier::external_body]
fn json_remove(m: &mut serde_json::Map<String, serde_json::Value>, key: &str) -> (r: Option<serde_json::Value>)
    ensures
        json_fields(*final(m)) == json_fields(*old(m)).remove(key@),
        r is Some <==> json_fields(*old(m)).contains_key(key@),
        r matches Some(v) ==> json_value_text(v) == json_fields(*old(m))[key@],
{
    m.remove(key)
}

/// `serde_json::Map::insert`.  Claimed: the field holds `value` afterwards
/// and the others are unchanged.
#[verifier::external_body]
fn json_insert(m: &mut serde_json::Map<String, serde_json::Value>, key: String, value: serde_json::Value)
    ensures
        json_fields(*final(m)) == json_fields(*old(m)).insert(key@, json_value_text(value)),
{
    let _ = m.insert(key, value);
}

/// `serde_json::to_vec` of an object.  Claimed: it succeeds (string keys,
/// written to memory) with the object's JSON text.
#[verifier::external_body]
fn json_object_to_vec(m: serde_json::Map<String, serde_json::Value>) -> (r: Option<Vec<u8>>)
    ensures
        r is Some,
        r matches Some(b) ==> b@ == json_object_text(json_fields(m)),
{
    match serde_json::to_vec(&serde_json::Value::Object(m)) {
        Ok(b) => Some(b),
        Err(_) => None,
    }
}

/// The fields after renaming, in turn, each present `old` to `new` (the
/// value moves with it), and whether any was renamed.
pub open spec fn renamed_fields(fields: Map<Seq<char>, Seq<u8>>, renames: Seq<(Seq<char>, Seq<char>)>) -> (Map<Seq<char>, Seq<u8>>, bool)
    decreases renames.len(),
{
    if renames.len() == 0 {
        (fields, false)
    } else {
        let prev = renamed_fields(fields, renames.drop_last());
        let (o, n) = renames.last();
        if prev.0.contains_key(o) {
            (prev.0.remove(o).insert(n, prev.0[o]), true)
        } else {
            prev
        }
    }
}

/// The fields after removing each of `names`, and whether any was there.
pub open spec fn stripped_fields(fields: Map<Seq<char>, Seq<u8>>, names: Seq<Seq<char>>) -> (Map<Seq<char>, Seq<u8>>, bool)
    decreases names.len(),
{
    if names.len() == 0 {
        (fields, false)
    } else {
        let prev = stripped_fields(fields, names.drop_last());
        if prev.0.contains_key(names.last()) {
            (prev.0.remove(names.last()), true)
        } else {
            prev
        }
    }
}

/// The views of a list of strings.
pub open spec fn string_views(s: Seq<String>) -> Seq<Seq<char>> {
    s.map_values(|x: String| x@)
}

/// The body after renaming fields: the body itself unless it is a JSON
/// object with a field to rename, else the JSON text of the renamed object.
pub open spec fn body_renamed(body: Seq<u8>, renames: Seq<(Seq<char>, Seq<char>)>) -> Seq<u8> {
    if renames.len() == 0 || body.len() == 0 {
        body
    } else {
        match json_object_fields(body) {
            None => body,
            Some(f) => {
                let (g, changed) = renamed_fields(f, renames);
                if changed { json_object_text(g) } else { body }
            },
        }
    }
}

/// The body after removing `names`: the body itself unless it is a JSON
/// object holding one of them, else the JSON text of what remains.
pub open spec fn body_stripped(body: Seq<u8>, names: Seq<Seq<char>>) -> Seq<u8> {
    if names.len() == 0 || body.len() == 0 {
        body
    } else {
        match json_object_fields(body) {
            None => body,
            Some(f) => {
                let (g, changed) = stripped_fields(f, names);
                if changed { json_object_text(g) } else { body }
            },
        }
    }
}

/// Renames fields of a JSON object body, in the order given.
pub fn rename_json_fields(body: &Vec<u8>, renames: &Vec<(String, String)>) -> (r: Vec<u8>)
    ensures
        r@ == body_renamed(body@, pair_views(renames@)),
{
    let ghost rv = pair_views(renames@);
    if renames.len() == 0 || body.len() == 0 {
        return body.clone();
    }
    let mut m = match parse_json_object(body.as_slice()) {
        Some(m) => m,
        None => {
            return body.clone();
        },
    };
    let ghost f0 = json_fields(m);
    let mut changed = false;
    let mut i: usize = 0;
    assert(rv.take(0) =~= Seq::<(Seq<char>, Seq<char>)>::empty());
    while i < renames.len()
        invariant
            i <= renames@.len(),
            rv == pair_views(renames@),
            (json_fields(m), changed) == renamed_fields(f0, rv.take(i as int)),
        decreases renames@.len() - i,
    {
        proof {
            assert(rv.take(i + 1).drop_last() =~= rv.take(i as int));
            assert(rv.take(i + 1).last() == (renames@[i as int].0@, renames@[i as int].1@));
        }
        match json_remove(&mut m, renames[i].0.as_str()) {
            Some(v) => {
                json_insert(&mut m, renames[i].1.clone(), v);
                changed = true;
            },
            None => {},
        }
        i = i + 1;
    }
    assert(rv.take(renames@.len() as int) =~= rv);
    if changed {
        match json_object_to_vec(m) {
            Some(b) => b,
            None => body.clone(),
        }
    } else {
        body.clone()
    }
}

/// Removes fields from a JSON object body.
pub fn strip_json_fields(body: &Vec<u8>, fields: &Vec<String>) -> (r: Vec<u8>)
    ensures
        r@ == body_stripped(body@, string_views(fields@)),
{
    let ghost fv = string_views(fields@);
    if fields.len() == 0 || body.len() == 0 {
        return body.clone();
    }
    let mut m = match parse_json_object(body.as_slice()) {
        Some(m) => m,
        None => {
            return body.clone();
        },
    };
    let ghost f0 = json_fields(m);
    let mut changed = false;
    let mut i: usize = 0;
    assert(fv.take(0) =~= Seq::<Seq<char>>::empty());
    while i < fields.len()
        invariant
            i <= fields@.len(),
            fv == string_views(fields@),
            (json_fields(m), changed) == stripped_fields(f0, fv.take(i as int)),
        decreases fields@.len() - i,
    {
        proof {
            assert(fv.take(i + 1).drop_last() =~= fv.take(i as int));
            assert(fv.take(i + 1).last() == fields@[i as int]@);
        }
        match json_remove(&mut m, fields[i].as_str()) {
            Some(_) => {
                changed = true;
            },
            None => {},
        }
        i = i + 1;
    }
    assert(fv.take(fields@.len() as int) =~= fv);
    if changed {
        match json_object_to_vec(m) {
            Some(b) => b,
            None => body.clone(),
        }
    } else {
        body.clone()
    }
}

/// A request path with `prefix` stripped, kept absolute.
pub open spec fn stripped_path(path: Seq<char>, prefix: Seq<char>) -> Seq<char> {
    if has_prefix(path, prefix) {
        let rest = path.skip(prefix.len() as int);
        if rest.len() == 0 || rest[0] != '/' { seq!['/'] + rest } else { rest }
    } else {
        path
    }
}

/// The `x-forwarded-for` value after appending the client address.
pub open spec fn forwarded_for(existing: Option<Seq<char>>, ip: Seq<char>) -> Seq<char> {
    match existing {
        Some(cur) => cur + ", "@ + ip,
        None => ip,
    }
}

/// The request and response transformation plugin.
pub struct TransformPlugin {
    pub config: TransformConfig,
}

/// The response headers after injecting `inject` (names lowercased) in turn.
pub open spec fn injected(hs: Seq<(Seq<char>, Seq<char>)>, inject: Seq<(Seq<char>, Seq<char>)>) -> Seq<(Seq<char>, Seq<char>)>
    decreases inject.len(),
{
    if inject.len() == 0 {
        hs
    } else {
        let prev = injected(hs, inject.drop_last());
        let name = unicode_lowercase(inject.last().0);
        without_name(prev, name).push((name, inject.last().1))
    }
}

/// The response headers after removing each of `names` (lowercased).
pub open spec fn stripped_headers(hs: Seq<(Seq<char>, Seq<char>)>, names: Seq<Seq<char>>) -> Seq<(Seq<char>, Seq<char>)>
    decreases names.len(),
{
    if names.len() == 0 {
        hs
    } else {
        without_name(stripped_headers(hs, names.drop_last()), unicode_lowercase(names.last()))
    }
}

impl TransformPlugin {
    /// A plugin with the given configuration.
    pub fn new(config: TransformConfig) -> (r: TransformPlugin)
        ensures
            r.config == config,
    {
        TransformPlugin { config }
    }

    /// Rewrites a request on its way in: gives it a request id (keeping one
    /// it has), appends the client address to `x-forwarded-for`, strips the
    /// path prefix and renames JSON body fields.  Gives the request id.
    pub fn transform_request(&self, ctx: &mut Context) -> (rid: String)
        ensures
            ({
                let hs0 = pair_views(old(ctx).request.headers@);
                &&& (lookup(hs0, "x-request-id"@) matches Some(v) ==> rid@ == v)
                &&& (lookup(hs0, "x-request-id"@) is None ==> exists|id: u128| rid@ == #[trigger] crate::uuid_text::uuid_text(id))
                &&& lookup(pair_views(final(ctx).request.headers@), "x-request-id"@) == Some(rid@)
                &&& lookup(pair_views(final(ctx).request.headers@), "x-forwarded-for"@) == Some(forwarded_for(
                    lookup(hs0, "x-forwarded-for"@),
                    ip_of(old(ctx).request.peer_addr@),
                ))
                &&& lookup(pair_views(final(ctx).metadata@), "request_id"@) == Some(rid@)
                &&& final(ctx).request.path@ == match self.config.prefix_strip {
                    Some(p) => stripped_path(old(ctx).request.path@, p@),
                    None => old(ctx).request.path@,
                }
                &&& final(ctx).request.body@ == body_renamed(old(ctx).request.body@, pair_views(self.config.body_transformations@))
                &&& final(ctx).request.method == old(ctx).request.method
                &&& final(ctx).request.peer_addr == old(ctx).request.peer_addr
                &&& final(ctx).upstream_url == old(ctx).upstream_url
            }),
    {
        let ghost hs0 = pair_views(ctx.request.headers@);
        proof {
            reveal_strlit("x-request-id");
            reveal_strlit("x-forwarded-for");
            assert("x-request-id"@.len() != "x-forwarded-for"@.len());
        }
        let rid = match find_pair(&ctx.request.headers, "x-request-id") {
            Some(v) => v.clone(),
            None => {
                let id = crate::queue::fresh_job_id();
                let fresh = crate::uuid_text::uuid_string(id);
                assert(fresh@ == crate::uuid_text::uuid_text(id));
                set_header(&mut ctx.request.headers, owned("x-request-id"), fresh.clone());
                proof {
                    lemma_lookup_set(hs0, "x-request-id"@, fresh@, "x-forwarded-for"@);
                    lemma_lookup_set_same(hs0, "x-request-id"@, fresh@);
                }
                fresh
            },
        };
        let ghost hs1 = pair_views(ctx.request.headers@);
        assert(lookup(hs1, "x-request-id"@) == Some(rid@));
        assert(lookup(hs1, "x-forwarded-for"@) == lookup(hs0, "x-forwarded-for"@));
        set_header(&mut ctx.metadata, owned("request_id"), rid.clone());
        let ip = peer_ip(ctx.request.peer_addr.as_str());
        let xff = match find_pair(&ctx.request.headers, "x-forwarded-for") {
            Some(cur) => {
                let a = concat(cur.as_str(), ", ");
                concat(a.as_str(), ip.as_str())
            },
            None => ip,
        };
        let ghost xv = xff@;
        set_header(&mut ctx.request.headers, owned("x-forwarded-for"), xff);
        proof {
            lemma_lookup_set(hs1, "x-forwarded-for"@, xv, "x-request-id"@);
            lemma_lookup_set_same(hs1, "x-forwarded-for"@, xv);
            lemma_lookup_set_same(pair_views(old(ctx).metadata@), "request_id"@, rid@);
        }

        match &self.config.prefix_strip {
            Some(prefix) => {
                if str_starts_with(ctx.request.path.as_str(), prefix.as_str()) {
                    let cs = chars_of(ctx.request.path.as_str());
                    let pl = chars_of(prefix.as_str()).len();
                    let rest = slice_range(cs.as_slice(), pl, cs.len());
                    assert(rest@ =~= ctx.request.path@.skip(pl as int));
                    let new_path = if rest.len() == 0 || rest[0] != '/' {
                        let mut v: Vec<char> = Vec::new();
                        v.push('/');
                        let mut r2 = rest;
                        v.append(&mut r2);
                        assert(v@ =~= seq!['/'] + ctx.request.path@.skip(pl as int));
                        string_from_chars(v.as_slice())
                    } else {
                        string_from_chars(rest.as_slice())
                    };
                    ctx.request.path = new_path;
                }
            },
            None => {},
        }
        let body = rename_json_fields(&ctx.request.body, &self.config.body_transformations);
        ctx.request.body = body;
        rid
    }

    /// Rewrites a response on its way out: sets the request id, injects the
    /// configured headers, strips the configured ones and removes JSON body
    /// fields.
    pub fn transform_response(&self, res: &mut Response, rid: &str)
        ensures
            final(res).status == old(res).status,
            pair_views(final(res).headers@) == stripped_headers(
                injected(
                    without_name(pair_views(old(res).headers@), "x-request-id"@).push(("x-request-id"@, rid@)),
                    pair_views(self.config.inject_response_headers@),
                ),
                string_views(self.config.strip_headers@),
            ),
            final(res).body@ == body_stripped(old(res).body@, string_views(self.config.response_body_strip@)),
    {
        set_header(&mut res.headers, owned("x-request-id"), rid.to_string());
        let ghost base = pair_views(res.headers@);
        let ghost iv = pair_views(self.config.inject_response_headers@);
        let mut i: usize = 0;
        assert(iv.take(0) =~= Seq::<(Seq<char>, Seq<char>)>::empty());
        while i < self.config.inject_response_headers.len()
            invariant
                i <= iv.len(),
                iv == pair_views(self.config.inject_response_headers@),
                pair_views(res.headers@) == injected(base, iv.take(i as int)),
                res.status == old(res).status,
                res.body == old(res).body,
            decreases iv.len() - i,
        {
            proof {
                assert(iv.take(i + 1).drop_last() =~= iv.take(i as int));
                assert(iv.take(i + 1).last() == iv[i as int]);
            }
            let name = to_lowercase(self.config.inject_response_headers[i].0.as_str());
            set_header(&mut res.headers, name, self.config.inject_response_headers[i].1.clone());
            i = i + 1;
        }
        assert(iv.take(iv.len() as int) =~= iv);
        let ghost mid = pair_views(res.headers@);
        let ghost sv = string_views(self.config.strip_headers@);
        let mut j: usize = 0;
        assert(sv.take(0) =~= Seq::<Seq<char>>::empty());
        while j < self.config.strip_headers.len()
            invariant
                j <= sv.len(),
                sv == string_views(self.config.strip_headers@),
                pair_views(res.headers@) == stripped_headers(mid, sv.take(j as int)),
                res.status == old(res).status,
                res.body == old(res).body,
            decreases sv.len() - j,
        {
            proof {
                assert(sv.take(j + 1).drop_last() =~= sv.take(j as int));
            }
            let name = to_lowercase(self.config.strip_headers[j].as_str());
            remove_header(&mut res.headers, name.as_str());
            j = j + 1;
        }
        assert(sv.take(sv.len() as int) =~= sv);
        let body = strip_json_fields(&res.body, &self.config.response_body_strip);
        res.body = body;
    }
}

/// Looking up a name after setting another leaves it unchanged.
proof fn lemma_lookup_set(hs: Seq<(Seq<char>, Seq<char>)>, set_name: Seq<char>, v: Seq<char>, other: Seq<char>)
    requires
        set_name != other,
    ensures
        lookup(without_name(hs, set_name).push((set_name, v)), other) == lookup(hs, other),
{
    lemma_lookup_without(hs, set_name, other);
    assert(without_name(hs, set_name).push((set_name, v)).drop_last() =~= without_name(hs, set_name));
}

/// Looking up a name just set gives its value.
proof fn lemma_lookup_set_same(hs: Seq<(Seq<char>, Seq<char>)>, name: Seq<char>, v: Seq<char>)
    ensures
        lookup(without_name(hs, name).push((name, v)), name) == Some(v),
{
}

/// Removing a name does not change the lookup of another.
proof fn lemma_lookup_without(hs: Seq<(Seq<char>, Seq<char>)>, removed: Seq<char>, other: Seq<char>)
    requires
        removed != other,
    ensures
        lookup(without_name(hs, removed), other) == lookup(hs, other),
    decreases hs.len(),
{
    if hs.len() > 0 {
        lemma_lookup_without(hs.drop_last(), removed, other);
        let w = without_name(hs.drop_last(), removed);
        if hs.last().0 != removed {
            assert(without_name(hs, removed).drop_last() =~= w);
        } else {
            assert(without_name(hs, removed) =~= w);
        }
    }
}

/// How one attempt to reach the upstream ended.
#[derive(Debug, Clone, Copy, PartialEq, Eq, Structural)]
pub enum UpstreamOutcome {
    /// A response with this status.
    Status(u16),
    /// The attempt timed out.
    Timeout,
    /// The connection failed.
    Failed,
}

/// What the forwarder does after an attempt.
pub enum RetryDecision {
    /// Wait `backoff_ms`, then make attempt number `attempts` + 1.
    Retry { attempts: u32, backoff_ms: u64 },
    /// Hand the upstream's response to the client.
    Deliver,
    /// Give up with this response.
    Fail(Response),
}

/// 2 to the power `n`.
pub open spec fn pow2(n: nat) -> nat
    decreases n,
{
    if n == 0 { 1 } else { 2 * pow2((n - 1) as nat) }
}

/// The backoff before retry number `attempt`, without jitter.
pub open spec fn backoff_floor(base: u64, attempt: u32) -> nat {
    base as nat * pow2((attempt - 1) as nat)
}

/// True when every backoff the configuration allows fits in 64 bits.
pub open spec fn backoff_fits(cfg: UpstreamConfig) -> bool {
    cfg.max_retries <= 64 && (cfg.max_retries == 0 || backoff_floor(cfg.base_backoff_ms, cfg.max_retries) + 49 <= u64::MAX)
}

/// A random jitter below 50 (`rand::thread_rng().gen_range(0..50)`).
/// Claimed: it is below 50.
#[verifier::external_body]
fn backoff_jitter() -> (r: u64)
    ensures
        r < 50,
{
    rand::Rng::gen_range(&mut rand::thread_rng(), 0..50)
}

proof fn lemma_pow2_63()
    ensures
        pow2(63) == 0x8000_0000_0000_0000nat,
{
    reveal_with_fuel(pow2, 64);
}

proof fn lemma_pow2_mono(a: nat, b: nat)
    requires
        a <= b,
    ensures
        pow2(a) <= pow2(b),
    decreases b,
{
    if a < b {
        lemma_pow2_mono(a, (b - 1) as nat);
    }
}

/// The forwarder: sends the request upstream, retrying failures.
pub struct ResilientPassthroughPlugin {
    pub config: UpstreamConfig,
}

/// The message when attempts ran out.
pub open spec fn give_up_message(o: UpstreamOutcome) -> Seq<char> {
    match o {
        UpstreamOutcome::Failed => "Could not connect to upstream after all attempts."@,
        _ => "Upstream request timed out after all attempts."@,
    }
}

/// The headers sent upstream: all but `host`, and on a retry the attempt
/// count.
pub open spec fn upstream_headers(hs: Seq<(Seq<char>, Seq<char>)>, attempts: u32) -> Seq<(Seq<char>, Seq<char>)> {
    let kept = without_name(hs, "host"@);
    if attempts > 0 { kept.push(("x-retry-count"@, decimal(attempts as nat))) } else { kept }
}

/// The response headers from an upstream's: the text ones, names
/// lowercased, later ones replacing earlier ones.
pub open spec fn relayed_headers(hs: Seq<(Seq<char>, Seq<char>)>, upstream: Seq<(Seq<char>, Option<Seq<char>>)>) -> Seq<(Seq<char>, Seq<char>)>
    decreases upstream.len(),
{
    if upstream.len() == 0 {
        hs
    } else {
        let prev = relayed_headers(hs, upstream.drop_last());
        match upstream.last().1 {
            Some(v) => {
                let name = unicode_lowercase(upstream.last().0);
                without_name(prev, name).push((name, v))
            },
            None => prev,
        }
    }
}

impl ResilientPassthroughPlugin {
    /// A forwarder with the given configuration.
    pub fn new(config: UpstreamConfig) -> (r: ResilientPassthroughPlugin)
        ensures
            r.config == config,
    {
        ResilientPassthroughPlugin { config }
    }

    /// The upstream URL of a request: the route's upstream, then the path.
    pub fn target_url(upstream: &str, path: &str) -> (r: String)
        ensures
            r@ == upstream@ + path@,
    {
        concat(upstream, path)
    }

    /// The method sent upstream: GET, POST, PUT and DELETE as they are, any
    /// other as GET.
    pub fn upstream_method(m: Method) -> (r: Method)
        ensures
            r == match m {
                Method::POST => Method::POST,
                Method::PUT => Method::PUT,
                Method::DELETE => Method::DELETE,
                _ => Method::GET,
            },
    {
        match m {
            Method::POST => Method::POST,
            Method::PUT => Method::PUT,
            Method::DELETE => Method::DELETE,
            _ => Method::GET,
        }
    }

    /// The headers of attempt number `attempts` + 1.
    pub fn request_headers(headers: &Vec<(String, String)>, attempts: u32) -> (r: Vec<(String, String)>)
        ensures
            pair_views(r@) == upstream_headers(pair_views(headers@), attempts),
    {
        let mut out = crate::http::copy_pairs(headers);
        remove_header(&mut out, "host");
        if attempts > 0 {
            let ghost before = pair_views(out@);
            let c = decimal_string(attempts as u64);
            let ghost cv = c@;
            out.push((owned("x-retry-count"), c));
            assert(pair_views(out@) =~= before.push(("x-retry-count"@, cv)));
        }
        out
    }

    /// The wait before retry number `attempt`: the base doubled for each
    /// earlier retry, plus a random jitter below 50 ms.
    pub fn calculate_backoff(&self, attempt: u32) -> (r: u64)
        requires
            attempt >= 1,
            backoff_floor(self.config.base_backoff_ms, attempt) + 49 <= u64::MAX,
            attempt <= 64,
        ensures
            backoff_floor(self.config.base_backoff_ms, attempt) <= r < backoff_floor(self.config.base_backoff_ms, attempt) + 50,
    {
        let base = self.config.base_backoff_ms;
        let mut m: u64 = 1;
        let mut k: u32 = 1;
        proof {
            assert(pow2(0) == 1);
            lemma_pow2_63();
        }
        while k < attempt
            invariant
                1 <= k <= attempt,
                attempt <= 64,
                pow2(63) == 0x8000_0000_0000_0000nat,
                m as nat == pow2((k - 1) as nat),
                backoff_floor(base, attempt) + 49 <= u64::MAX,
                base == self.config.base_backoff_ms,
            decreases attempt - k,
        {
            proof {
                lemma_pow2_mono(k as nat, (attempt - 1) as nat);
                assert(pow2(k as nat) == 2 * pow2((k - 1) as nat));
                if base > 0 {
                    assert(pow2(k as nat) <= base as nat * pow2((attempt - 1) as nat)) by (nonlinear_arith)
                        requires
                            pow2(k as nat) <= pow2((attempt - 1) as nat),
                            base > 0,
                    ;
                } else {
                    lemma_pow2_mono(k as nat, 63);
                }
            }
            m = m * 2;
            k = k + 1;
        }
        proof {
            assert(base as nat * m as nat == backoff_floor(base, attempt));
        }
        let j = backoff_jitter();
        base * m + j
    }

    /// The response when attempts ran out.
    pub fn bad_gateway(msg: &str) -> (r: Response)
        ensures
            r.status == 502,
            pair_views(r.headers@) == seq![crate::http::server_header()],
            r.body@ == vstd::utf8::encode_utf8("502 Bad Gateway: "@ + msg@),
    {
        let mut res = Response::new(502);
        let text = concat("502 Bad Gateway: ", msg);
        res.body = vstd::slice::slice_to_vec(text.as_str().as_bytes());
        res
    }

    /// Decides what follows attempt number `attempts` + 1: a server error,
    /// a timeout or a failure is retried while retries are left; else a
    /// response is delivered, and a timeout or failure ends in a 502.
    pub fn decide(&self, outcome: UpstreamOutcome, attempts: u32) -> (r: RetryDecision)
        requires
            backoff_fits(self.config),
        ensures
            ({
                let retry = attempts < self.config.max_retries && match outcome {
                    UpstreamOutcome::Status(s) => s >= 500,
                    _ => true,
                };
                if retry {
                    r matches RetryDecision::Retry { attempts: a, backoff_ms: b } && a == attempts + 1
                        && backoff_floor(self.config.base_backoff_ms, a) <= b < backoff_floor(self.config.base_backoff_ms, a) + 50
                } else {
                    match outcome {
                        UpstreamOutcome::Status(_) => r is Deliver,
                        _ => r matches RetryDecision::Fail(resp) && resp.status == 502
                            && pair_views(resp.headers@) == seq![crate::http::server_header()]
                            && resp.body@ == vstd::utf8::encode_utf8("502 Bad Gateway: "@ + give_up_message(outcome)),
                    }
                }
            }),
    {
        let retryable = match outcome {
            UpstreamOutcome::Status(s) => s >= 500,
            _ => true,
        };
        if retryable && attempts < self.config.max_retries {
            let a = attempts + 1;
            proof {
                lemma_pow2_mono((a - 1) as nat, (self.config.max_retries - 1) as nat);
                let base = self.config.base_backoff_ms as nat;
                assert(base * pow2((a - 1) as nat) <= base * pow2((self.config.max_retries - 1) as nat)) by (nonlinear_arith)
                    requires
                        pow2((a - 1) as nat) <= pow2((self.config.max_retries - 1) as nat),
                ;
            }
            let b = self.calculate_backoff(a);
            return RetryDecision::Retry { attempts: a, backoff_ms: b };
        }
        match outcome {
            UpstreamOutcome::Status(_) => RetryDecision::Deliver,
            UpstreamOutcome::Timeout => RetryDecision::Fail(Self::bad_gateway("Upstream request timed out after all attempts.")),
            UpstreamOutcome::Failed => RetryDecision::Fail(Self::bad_gateway("Could not connect to upstream after all attempts.")),
        }
    }

    /// The response relayed from an upstream's status, headers (`None` for
    /// values that are not text) and body.
    pub fn upstream_response(status: u16, headers: &Vec<(String, Option<String>)>, body: Vec<u8>) -> (r: Response)
        ensures
            r.status == status,
            pair_views(r.headers@) == relayed_headers(seq![crate::http::server_header()], crate::proxy::raw_header_views(headers@)),
            r.body@ == body@,
    {
        let mut res = Response::new(status);
        let ghost hv = crate::proxy::raw_header_views(headers@);
        let ghost base = pair_views(res.headers@);
        let mut i: usize = 0;
        assert(hv.take(0) =~= Seq::<(Seq<char>, Option<Seq<char>>)>::empty());
        while i < headers.len()
            invariant
                i <= headers@.len(),
                hv == crate::proxy::raw_header_views(headers@),
                pair_views(res.headers@) == relayed_headers(base, hv.take(i as int)),
                base == seq![crate::http::server_header()],
                res.status == status,
            decreases headers@.len() - i,
        {
            proof {
                assert(hv.take(i + 1).drop_last() =~= hv.take(i as int));
                assert(hv.take(i + 1).last() == hv[i as int]);
            }
            match &headers[i].1 {
                Some(v) => {
                    let name = to_lowercase(headers[i].0.as_str());
                    set_header(&mut res.headers, name, v.clone());
                },
                None => {},
            }
            i = i + 1;
        }
        assert(hv.take(headers@.len() as int) =~= hv);
        res.body = body;
        res
    }
}

/// The HMAC algorithms a token may be signed with.
#[derive(Debug, Clone, Copy, PartialEq, Eq, Structural)]
pub enum JwtAlgorithm {
    HS256,
    HS384,
    HS512,
}

/// The algorithm a configuration names (HS256 when none is named).
pub open spec fn algorithm_named(name: Option<Seq<char>>) -> Option<JwtAlgorithm> {
    let n = match name { Some(a) => a, None => "HS256"@ };
    if n == "HS256"@ {
        Some(JwtAlgorithm::HS256)
    } else if n == "HS384"@ {
        Some(JwtAlgorithm::HS384)
    } else if n == "HS512"@ {
        Some(JwtAlgorithm::HS512)
    } else {
        None
    }
}

/// What the authentication plugin does before verifying a token.
pub enum AuthStep {
    /// The path needs no token: pass the request on.
    Bypass,
    /// Refuse the request with this response.
    Reject(Response),
    /// Verify `token` with `algorithm`.
    Verify { token: String, algorithm: JwtAlgorithm },
}

/// The verified claims of a token: its subject and the other claims, each
/// as text.
pub struct VerifiedClaims {
    pub sub: String,
    pub extra: Vec<(String, String)>,
}

/// The JWT authentication plugin.
pub struct AuthPlugin {
    pub config: AuthConfig,
}

/// True when a bypass path is a prefix of `path`.
pub open spec fn bypassed(bypass: Seq<String>, path: Seq<char>) -> bool {
    exists|i: int| 0 <= i < bypass.len() && has_prefix(path, #[trigger] bypass[i]@)
}

/// The metadata after recording verified claims: the subject as
/// `auth_sub`, each other claim as `auth_claim_<name>`, in turn.
pub open spec fn with_claims(md: Seq<(Seq<char>, Seq<char>)>, sub: Seq<char>, extra: Seq<(Seq<char>, Seq<char>)>) -> Seq<(Seq<char>, Seq<char>)>
    decreases extra.len(),
{
    if extra.len() == 0 {
        without_name(md, "auth_sub"@).push(("auth_sub"@, sub))
    } else {
        let prev = with_claims(md, sub, extra.drop_last());
        let name = "auth_claim_"@ + extra.last().0;
        without_name(prev, name).push((name, extra.last().1))
    }
}

impl AuthPlugin {
    /// A plugin with the given configuration.
    pub fn new(config: AuthConfig) -> (r: AuthPlugin)
        ensures
            r.config == config,
    {
        AuthPlugin { config }
    }

    /// Checks a request up to token verification: bypass paths pass; a
    /// request without a `Bearer` authorization, or under an algorithm
    /// other than HS256, HS384 and HS512, is refused with 401.
    pub fn precheck(&self, ctx: &Context) -> (r: AuthStep)
        ensures
            bypassed(self.config.bypass_paths@, ctx.request.path@) ==> r is Bypass,
            !bypassed(self.config.bypass_paths@, ctx.request.path@) ==> match lookup(pair_views(ctx.request.headers@), "authorization"@) {
                None => r matches AuthStep::Reject(resp) && resp.status == 401,
                Some(h) => if !has_prefix(h, "Bearer "@) {
                    r matches AuthStep::Reject(resp) && resp.status == 401
                } else {
                    match algorithm_named(match self.config.algorithm { Some(a) => Some(a@), None => None }) {
                        None => r matches AuthStep::Reject(resp) && resp.status == 401,
                        Some(alg) => r matches AuthStep::Verify { token, algorithm } && token@ == h.skip(7) && algorithm == alg,
                    }
                },
            },
    {
        let mut i: usize = 0;
        while i < self.config.bypass_paths.len()
            invariant
                i <= self.config.bypass_paths@.len(),
                forall|k: int| 0 <= k < i ==> !has_prefix(ctx.request.path@, #[trigger] self.config.bypass_paths@[k]@),
            decreases self.config.bypass_paths@.len() - i,
        {
            if str_starts_with(ctx.request.path.as_str(), self.config.bypass_paths[i].as_str()) {
                return AuthStep::Bypass;
            }
            i = i + 1;
        }
        let h = match find_pair(&ctx.request.headers, "authorization") {
            None => {
                return AuthStep::Reject(Response::new(401));
            },
            Some(h) => h,
        };
        if !str_starts_with(h.as_str(), "Bearer ") {
            return AuthStep::Reject(Response::new(401));
        }
        proof {
            reveal_strlit("Bearer ");
        }
        let cs = chars_of(h.as_str());
        let token = string_from_chars(slice_range(cs.as_slice(), 7, cs.len()).as_slice());
        assert(token@ =~= h@.skip(7));
        let name = match &self.config.algorithm {
            Some(a) => a.as_str(),
            None => "HS256",
        };
        let algorithm = if str_eq(name, "HS256") {
            JwtAlgorithm::HS256
        } else if str_eq(name, "HS384") {
            JwtAlgorithm::HS384
        } else if str_eq(name, "HS512") {
            JwtAlgorithm::HS512
        } else {
            return AuthStep::Reject(Response::new(401));
        };
        AuthStep::Verify { token, algorithm }
    }

    /// Records the claims of a verified token in the request's metadata.
    pub fn apply_claims(ctx: &mut Context, claims: VerifiedClaims)
        ensures
            pair_views(final(ctx).metadata@) == with_claims(pair_views(old(ctx).metadata@), claims.sub@, pair_views(claims.extra@)),
            final(ctx).request == old(ctx).request,
            final(ctx).upstream_url == old(ctx).upstream_url,
    {
        let ghost md0 = pair_views(ctx.metadata@);
        let ghost ev = pair_views(claims.extra@);
        set_header(&mut ctx.metadata, owned("auth_sub"), claims.sub.clone());
        let mut i: usize = 0;
        assert(ev.take(0) =~= Seq::<(Seq<char>, Seq<char>)>::empty());
        while i < claims.extra.len()
            invariant
                i <= ev.len(),
                ev == pair_views(claims.extra@),
                pair_views(ctx.metadata@) == with_claims(md0, claims.sub@, ev.take(i as int)),
                ctx.request == old(ctx).request,
                ctx.upstream_url == old(ctx).upstream_url,
            decreases ev.len() - i,
        {
            proof {
                assert(ev.take(i + 1).drop_last() =~= ev.take(i as int));
                assert(ev.take(i + 1).last() == ev[i as int]);
            }
            let name = concat("auth_claim_", claims.extra[i].0.as_str());
            set_header(&mut ctx.metadata, name, claims.extra[i].1.clone());
            i = i + 1;
        }
        assert(ev.take(ev.len() as int) =~= ev);
    }

    /// Verifies a token against the plugin's secret, issuer and audience
    /// with `algorithm`, and gives its claims.  The check of the signature
    /// and of the registered claims (expiry against the clock among them)
    /// is `jsonwebtoken`'s; what follows is `claims_of`.
    pub fn verify_token(&self, token: &str, algorithm: JwtAlgorithm) -> (r: Option<VerifiedClaims>)
        ensures
            r matches Some(c) ==> exists|f: Map<Seq<char>, Seq<u8>>| #[trigger] jwt_accepts(
                token@,
                vstd::utf8::encode_utf8(self.config.secret@),
                algorithm,
                string_opt_view(self.config.issuer),
                string_opt_view(self.config.audience),
                f,
            ) && exists|e: Seq<(String, ClaimValue)>| #[trigger] entries_of(e, f) && claims_spec(e) == Some((c.sub@, pair_views(c.extra@))),
            r matches Some(c) ==> forall|i: int| 0 <= i < c.extra@.len() ==> {
                let n = (#[trigger] c.extra@[i]).0@;
                n != "sub"@ && n != "exp"@
            },
    {
        let issuer = match &self.config.issuer {
            Some(s) => Some(s.as_str()),
            None => None,
        };
        let audience = match &self.config.audience {
            Some(s) => Some(s.as_str()),
            None => None,
        };
        let m = match decode_jwt(token, self.config.secret.as_str().as_bytes(), algorithm, issuer, audience) {
            Some(m) => m,
            None => {
                return None;
            },
        };
        let ghost f = json_fields(m);
        let entries = claim_entries(m);
        let r = claims_of(&entries);
        proof {
            if r is Some {
                assert(entries_of(entries@, f));
                assert(claims_spec(entries@) == Some((r->0.sub@, pair_views(r->0.extra@))));
            }
            lemma_extra_claims_names(entries@);
            if r is Some {
                assert forall|i: int| 0 <= i < r->0.extra@.len() implies {
                    let n = (#[trigger] r->0.extra@[i]).0@;
                    n != "sub"@ && n != "exp"@
                } by {
                    assert(pair_views(r->0.extra@)[i] == extra_claims(entries@)[i]);
                }
            }
        }
        r
    }
}

/// The view of an optional string.
pub open spec fn string_opt_view(o: Option<String>) -> Option<Seq<char>> {
    match o {
        Some(s) => Some(s@),
        None => None,
    }
}

/// A claim's value: a JSON string's text, or the compact JSON text of any
/// other value.
#[derive(Debug, Clone)]
pub enum ClaimValue {
    Text(String),
    Json(String),
}

/// The text a claim is recorded with.
pub open spec fn claim_text(c: ClaimValue) -> Seq<char> {
    match c {
        ClaimValue::Text(s) => s@,
        ClaimValue::Json(t) => t@,
    }
}

/// The hexadecimal digit (lowercase ASCII) for `d` below 16.
pub open spec fn lower_hex_digit(d: int) -> u8 {
    if d < 10 { (48 + d) as u8 } else { (97 + d - 10) as u8 }
}

/// What `serde_json` writes for the byte `b` inside a string: a quote, a
/// backslash and the control bytes escaped, any other byte as it is.
pub open spec fn json_escaped_byte(b: u8) -> Seq<u8> {
    if b == 0x22 {
        seq![0x5cu8, 0x22u8]
    } else if b == 0x5c {
        seq![0x5cu8, 0x5cu8]
    } else if b == 0x08 {
        seq![0x5cu8, 0x62u8]
    } else if b == 0x09 {
        seq![0x5cu8, 0x74u8]
    } else if b == 0x0a {
        seq![0x5cu8, 0x6eu8]
    } else if b == 0x0c {
        seq![0x5cu8, 0x66u8]
    } else if b == 0x0d {
        seq![0x5cu8, 0x72u8]
    } else if b < 0x20 {
        seq![0x5cu8, 0x75u8, 0x30u8, 0x30u8, lower_hex_digit(b as int / 16), lower_hex_digit(b as int % 16)]
    } else {
        seq![b]
    }
}

/// The bytes of a string escaped one by one.
pub open spec fn json_escaped(bytes: Seq<u8>) -> Seq<u8>
    decreases bytes.len(),
{
    if bytes.len() == 0 {
        Seq::empty()
    } else {
        json_escaped(bytes.drop_last()) + json_escaped_byte(bytes.last())
    }
}

/// The JSON text `serde_json` writes for the string `s`: its UTF-8 bytes,
/// escaped, between quotes.
pub open spec fn json_string_text(s: Seq<char>) -> Seq<u8> {
    seq![0x22u8] + json_escaped(vstd::utf8::encode_utf8(s)) + seq![0x22u8]
}

/// True when `jsonwebtoken` accepts `token` on every check that does not
/// read the clock: it is a JWT signed under `algorithm` with the HMAC key
/// `secret`, naming the issuer `issuer` and the audience `audience` where
/// these are given, and its payload is a JSON object whose fields are
/// `claims`.
pub uninterp spec fn jwt_accepts(token: Seq<char>, secret: Seq<u8>, algorithm: JwtAlgorithm, issuer: Option<Seq<char>>, audience: Option<Seq<char>>, claims: Map<Seq<char>, Seq<u8>>) -> bool;

/// `jsonwebtoken::decode` into a JSON object of claims, under `algorithm`
/// with the key `secret`, and the issuer and audience when given.  Claimed:
/// claims come back only for a token `jwt_accepts` accepts with exactly
/// these arguments, and they are its payload's fields.  Whether they come
/// back is not claimed: the expiry check reads the clock.
#[verifier::external_body]
fn decode_jwt(token: &str, secret: &[u8], algorithm: JwtAlgorithm, issuer: Option<&str>, audience: Option<&str>) -> (r: Option<serde_json::Map<String, serde_json::Value>>)
    ensures
        r matches Some(m) ==> jwt_accepts(token@, secret@, algorithm, opt_view(issuer), opt_view(audience), json_fields(m)),
{
    let alg = match algorithm {
        JwtAlgorithm::HS256 => jsonwebtoken::Algorithm::HS256,
        JwtAlgorithm::HS384 => jsonwebtoken::Algorithm::HS384,
        JwtAlgorithm::HS512 => jsonwebtoken::Algorithm::HS512,
    };
    let mut validation = jsonwebtoken::Validation::new(alg);
    if let Some(iss) = issuer { validation.set_issuer(&[iss]); }
    if let Some(aud) = audience { validation.set_audience(&[aud]); }
    let key = jsonwebtoken::DecodingKey::from_secret(secret);
    jsonwebtoken::decode::<serde_json::Map<String, serde_json::Value>>(token, &key, &validation).ok().map(|d| d.claims)
}

/// The entries of a JSON object of claims, each with a JSON string's text or
/// the compact text of any other value (`Value::to_string`).  Claimed: each
/// field once, with its value.
#[verifier::external_body]
fn claim_entries(m: serde_json::Map<String, serde_json::Value>) -> (r: Vec<(String, ClaimValue)>)
    ensures
        forall|i: int| 0 <= i < r@.len() ==> forall|j: int| i < j < r@.len() ==> (#[trigger] r@[i]).0@ != (#[trigger] r@[j]).0@,
        forall|k: Seq<char>| json_fields(m).contains_key(k) <==> exists|i: int| 0 <= i < r@.len() && (#[trigger] r@[i]).0@ == k,
        forall|i: int| 0 <= i < r@.len() ==> ((#[trigger] r@[i]).1 matches ClaimValue::Text(s) ==> json_fields(m)[r@[i].0@] == json_string_text(s@)),
        forall|i: int| 0 <= i < r@.len() ==> ((#[trigger] r@[i]).1 matches ClaimValue::Json(t) ==> json_fields(m)[r@[i].0@] == vstd::utf8::encode_utf8(t@)),
{
    m.into_iter().map(|(k, v)| match v {
        serde_json::Value::String(s) => (k, ClaimValue::Text(s)),
        other => (k, ClaimValue::Json(other.to_string())),
    }).collect()
}

/// True when `e` lists the fields `f` of a JSON object of claims: each
/// field once, a JSON string by its text, any other value by its compact
/// JSON text.
pub open spec fn entries_of(e: Seq<(String, ClaimValue)>, f: Map<Seq<char>, Seq<u8>>) -> bool {
    &&& forall|i: int| 0 <= i < e.len() ==> forall|j: int| i < j < e.len() ==> (#[trigger] e[i]).0@ != (#[trigger] e[j]).0@
    &&& forall|k: Seq<char>| f.contains_key(k) <==> exists|i: int| 0 <= i < e.len() && (#[trigger] e[i]).0@ == k
    &&& forall|i: int| 0 <= i < e.len() ==> ((#[trigger] e[i]).1 matches ClaimValue::Text(s) ==> f[e[i].0@] == json_string_text(s@))
    &&& forall|i: int| 0 <= i < e.len() ==> ((#[trigger] e[i]).1 matches ClaimValue::Json(t) ==> f[e[i].0@] == vstd::utf8::encode_utf8(t@))
}

/// The value of the first claim named `name`.
pub open spec fn first_claim(entries: Seq<(String, ClaimValue)>, name: Seq<char>) -> Option<ClaimValue>
    decreases entries.len(),
{
    if entries.len() == 0 {
        None
    } else {
        match first_claim(entries.drop_last(), name) {
            Some(v) => Some(v),
            None => if entries.last().0@ == name { Some(entries.last().1) } else { None },
        }
    }
}

/// The claims other than `sub` and `exp`, each with its text, in order.
pub open spec fn extra_claims(entries: Seq<(String, ClaimValue)>) -> Seq<(Seq<char>, Seq<char>)>
    decreases entries.len(),
{
    if entries.len() == 0 {
        Seq::empty()
    } else {
        let prev = extra_claims(entries.drop_last());
        let (k, v) = entries.last();
        if k@ == "sub"@ || k@ == "exp"@ { prev } else { prev.push((k@, claim_text(v))) }
    }
}

/// The claims a token's entries give: `sub` must be a string and `exp` a
/// whole number that fits in `usize`; the subject and the other claims.
pub open spec fn claims_spec(entries: Seq<(String, ClaimValue)>) -> Option<(Seq<char>, Seq<(Seq<char>, Seq<char>)>)> {
    if first_claim(entries, "sub"@) matches Some(ClaimValue::Text(s))
        && first_claim(entries, "exp"@) matches Some(ClaimValue::Json(t))
        && parse_usize_spec(t@) is Some {
        Some((claim_text(first_claim(entries, "sub"@)->0), extra_claims(entries)))
    } else {
        None
    }
}

/// No extra claim is named `sub` or `exp`.
pub proof fn lemma_extra_claims_names(entries: Seq<(String, ClaimValue)>)
    ensures
        forall|i: int| 0 <= i < extra_claims(entries).len() ==> {
            let n = (#[trigger] extra_claims(entries)[i]).0;
            n != "sub"@ && n != "exp"@
        },
    decreases entries.len(),
{
    if entries.len() > 0 {
        let prev = extra_claims(entries.drop_last());
        lemma_extra_claims_names(entries.drop_last());
        assert forall|i: int| 0 <= i < extra_claims(entries).len() implies {
            let n = (#[trigger] extra_claims(entries)[i]).0;
            n != "sub"@ && n != "exp"@
        } by {
            if i < prev.len() {
                assert(extra_claims(entries)[i] == prev[i]);
            }
        }
    }
}

/// Reads the subject, expiry and other claims out of a decoded token's
/// entries.
pub fn claims_of(entries: &Vec<(String, ClaimValue)>) -> (r: Option<VerifiedClaims>)
    ensures
        claims_spec(entries@) is None ==> r is None,
        claims_spec(entries@) matches Some(p) ==> (r matches Some(c) && c.sub@ == p.0 && pair_views(c.extra@) == p.1),
{
    let mut sub: Option<usize> = None;
    let mut exp: Option<usize> = None;
    let mut extra: Vec<(String, String)> = Vec::new();
    let mut i: usize = 0;
    let ghost e = entries@;
    assert(e.take(0) =~= Seq::<(String, ClaimValue)>::empty());
    while i < entries.len()
        invariant
            i <= e.len(),
            e == entries@,
            match sub {
                None => first_claim(e.take(i as int), "sub"@) is None,
                Some(j) => j < i && first_claim(e.take(i as int), "sub"@) == Some(e[j as int].1),
            },
            match exp {
                None => first_claim(e.take(i as int), "exp"@) is None,
                Some(j) => j < i && first_claim(e.take(i as int), "exp"@) == Some(e[j as int].1),
            },
            pair_views(extra@) == extra_claims(e.take(i as int)),
        decreases e.len() - i,
    {
        proof {
            assert(e.take(i + 1).drop_last() =~= e.take(i as int));
            assert(e.take(i + 1).last() == e[i as int]);
            reveal_strlit("sub");
            reveal_strlit("exp");
            assert("sub"@[0] != "exp"@[0]);
        }
        let name = entries[i].0.as_str();
        let is_sub = str_eq(name, "sub");
        let is_exp = str_eq(name, "exp");
        if is_sub {
            if sub.is_none() {
                sub = Some(i);
            }
        } else if is_exp {
            if exp.is_none() {
                exp = Some(i);
            }
        } else {
            let text = match &entries[i].1 {
                ClaimValue::Text(s) => s.clone(),
                ClaimValue::Json(t) => t.clone(),
            };
            let ghost before = pair_views(extra@);
            extra.push((entries[i].0.clone(), text));
            proof {
                assert(pair_views(extra@) =~= before.push((e[i as int].0@, claim_text(e[i as int].1))));
            }
        }
        i = i + 1;
    }
    assert(e.take(e.len() as int) =~= e);
    let s = match sub {
        Some(j) => match &entries[j].1 {
            ClaimValue::Text(s) => s,
            ClaimValue::Json(_) => {
                return None;
            },
        },
        None => {
            return None;
        },
    };
    match exp {
        Some(j) => match &entries[j].1 {
            ClaimValue::Json(t) => {
                let cs = chars_of(t.as_str());
                if parse_usize(cs.as_slice()).is_none() {
                    return None;
                }
            },
            ClaimValue::Text(_) => {
                return None;
            },
        },
        None => {
            return None;
        },
    }
    Some(VerifiedClaims { sub: s.clone(), extra })
}

/// The message for a configuration without routes.
pub open spec fn no_routes_message() -> Seq<char> {
    "Gateway Config Error: 'routes' must contain at least one entry."@
}

/// The message for route number `n` (from one) without an upstream.
pub open spec fn empty_upstream_message(n: nat) -> Seq<char> {
    "Gateway Config Error (Route #"@ + decimal(n) + "): 'upstream' URL cannot be empty."@
}

/// Checks a gateway configuration: it needs a route, and every route an
/// upstream that is not blank.
pub fn validate_gateway_config(config: &GatewayConfig) -> (r: Result<(), String>)
    ensures
        config.routes@.len() == 0 ==> (r matches Err(m) && m@ == no_routes_message()),
        config.routes@.len() > 0 ==> (r is Ok <==> (forall|i: int| 0 <= i < config.routes@.len() ==> trim((#[trigger] config.routes@[i]).upstream@).len() > 0)),
        config.routes@.len() > 0 ==> (r matches Err(m) ==> exists|i: int| 0 <= i < config.routes@.len()
            && trim(config.routes@[i].upstream@).len() == 0
            && (forall|k: int| 0 <= k < i ==> trim((#[trigger] config.routes@[k]).upstream@).len() > 0)
            && m@ == empty_upstream_message((i + 1) as nat)),
{
    if config.routes.len() == 0 {
        return Err(owned("Gateway Config Error: 'routes' must contain at least one entry."));
    }
    let mut i: usize = 0;
    while i < config.routes.len()
        invariant
            i <= config.routes@.len(),
            forall|k: int| 0 <= k < i ==> trim((#[trigger] config.routes@[k]).upstream@).len() > 0,
        decreases config.routes@.len() - i,
    {
        let t = trim_str(config.routes[i].upstream.as_str());
        if chars_of(t.as_str()).len() == 0 {
            let n = decimal_string((i + 1) as u64);
            let a = concat("Gateway Config Error (Route #", n.as_str());
            return Err(concat(a.as_str(), "): 'upstream' URL cannot be empty."));
        }
        i = i + 1;
    }
    Ok(())
}

/// The method a route names (any case): GET, POST, PUT or DELETE, else GET.
pub fn route_method(method: &str) -> (r: Method)
    ensures
        r == ({
            let u = unicode_uppercase(method@);
            if u == "POST"@ { Method::POST } else if u == "PUT"@ { Method::PUT } else if u == "DELETE"@ { Method::DELETE } else { Method::GET }
        }),
{
    let u = to_uppercase(method);
    if str_eq(u.as_str(), "POST") {
        Method::POST
    } else if str_eq(u.as_str(), "PUT") {
        Method::PUT
    } else if str_eq(u.as_str(), "DELETE") {
        Method::DELETE
    } else {
        Method::GET
    }
}

/// A plugin of the gateway's chain.
pub enum PluginKind {
    Auth(AuthConfig),
    RateLimit(RateLimitConfig),
    Transform(TransformConfig),
    Forward(UpstreamConfig),
}

/// The kind of a plugin: 0 auth, 1 rate limit, 2 transform, 3 forward.
pub open spec fn plugin_rank(p: PluginKind) -> int {
    match p {
        PluginKind::Auth(_) => 0,
        PluginKind::RateLimit(_) => 1,
        PluginKind::Transform(_) => 2,
        PluginKind::Forward(_) => 3,
    }
}

/// The plugin chain a configuration builds: authentication, rate limiting
/// and transformation where configured, in that order, then the forwarder
/// (with default settings unless configured).
pub fn pipeline_plan(config: &GatewayConfig) -> (r: Vec<PluginKind>)
    ensures
        r@.len() == (if config.auth is Some { 1int } else { 0int }) + (if config.rate_limit is Some { 1int } else { 0int })
            + (if config.transform is Some { 1int } else { 0int }) + 1,
        forall|i: int, j: int| 0 <= i < j < r@.len() ==> plugin_rank(#[trigger] r@[i]) < plugin_rank(#[trigger] r@[j]),
        r@.last() matches PluginKind::Forward(u) && u == match config.upstream {
            Some(c) => c,
            None => UpstreamConfig { timeout_sec: 30, max_retries: 3, base_backoff_ms: 100 },
        },
{
    let mut v: Vec<PluginKind> = Vec::new();
    match &config.auth {
        Some(a) => v.push(PluginKind::Auth(a.clone())),
        None => {},
    }
    match &config.rate_limit {
        Some(c) => v.push(PluginKind::RateLimit(c.clone())),
        None => {},
    }
    match &config.transform {
        Some(c) => v.push(PluginKind::Transform(c.clone())),
        None => {},
    }
    let u = match config.upstream {
        Some(c) => c,
        None => UpstreamConfig::default(),
    };
    v.push(PluginKind::Forward(u));
    v
}

/// The single-attempt forwarder.
pub struct PassthroughPlugin {}

impl PassthroughPlugin {
    /// The method sent upstream: GET and POST as they are, any other as GET.
    pub fn upstream_method(m: Method) -> (r: Method)
        ensures
            r == match m {
                Method::POST => Method::POST,
                _ => Method::GET,
            },
    {
        match m {
            Method::POST => Method::POST,
            _ => Method::GET,
        }
    }

    /// The response when the upstream cannot be reached.
    pub fn unreachable() -> (r: Response)
        ensures
            r.status == 502,
            pair_views(r.headers@) == seq![crate::http::server_header()],
            r.body@.len() == 0,
    {
        Response::new(502)
    }
}

} // verus!
