//! The backend pool of the load balancer: round robin, least connections,
//! weighted round robin, sticky sessions keyed by cookie or client address,
//! and draining.
//!
//! Times and durations are nanoseconds of a monotonic clock.

use vstd::prelude::*;
use crate::rate_limit::opt_view;
use crate::text::{
    chars_of, concat, has_prefix, owned, slice_range, split_char, split_chars, starts_with, str_eq,
    string_from_chars, trim, trim_bounds, views,
};

verus! {

/// One backend server.
#[derive(Debug)]
pub struct Backend {
    pub address: String,
    pub weight: u32,
    pub healthy: bool,
    pub draining: bool,
    pub active_conns: usize,
}

/// A backend as plain values.
pub struct BackendView {
    pub address: Seq<char>,
    pub weight: u32,
    pub healthy: bool,
    pub draining: bool,
    pub active_conns: usize,
}

impl View for Backend {
    type V = BackendView;

    open spec fn view(&self) -> BackendView {
        BackendView {
            address: self.address@,
            weight: self.weight,
            healthy: self.healthy,
            draining: self.draining,
            active_conns: self.active_conns,
        }
    }
}

/// True for a backend that takes new traffic: healthy and not draining.
pub open spec fn routable(b: BackendView) -> bool {
    b.healthy && !b.draining
}

impl Backend {
    /// A healthy, idle backend.
    pub fn new(address: &str, weight: u32) -> (r: Backend)
        ensures
            r@ == (BackendView { address: address@, weight, healthy: true, draining: false, active_conns: 0 }),
    {
        Backend { address: address.to_string(), weight, healthy: true, draining: false, active_conns: 0 }
    }

    /// The URL probed for health: `http://<address>/health`.
    pub fn health_check_url(&self) -> (r: String)
        ensures
            r@ == "http://"@ + self.address@ + "/health"@,
    {
        let a = concat("http://", self.address.as_str());
        concat(a.as_str(), "/health")
    }

    /// Marks the backend healthy or not.
    pub fn set_healthy(&mut self, status: bool)
        ensures
            final(self)@ == (BackendView { healthy: status, ..old(self)@ }),
    {
        self.healthy = status;
    }

    /// True when the backend is healthy.
    pub fn is_healthy(&self) -> (r: bool)
        ensures
            r == self@.healthy,
    {
        self.healthy
    }

    /// Marks the backend draining or not.
    pub fn set_draining(&mut self, status: bool)
        ensures
            final(self)@ == (BackendView { draining: status, ..old(self)@ }),
    {
        self.draining = status;
    }

    /// True when the backend is draining.
    pub fn is_draining(&self) -> (r: bool)
        ensures
            r == self@.draining,
    {
        self.draining
    }

    /// True when the backend takes new traffic.
    pub fn is_routable(&self) -> (r: bool)
        ensures
            r == routable(self@),
    {
        self.is_healthy() && !self.is_draining()
    }
}

/// The FNV-1a hash of `bytes`, folded from the left.
pub open spec fn fnv1a(bytes: Seq<u8>) -> u64
    decreases bytes.len(),
{
    if bytes.len() == 0 {
        0xcbf29ce484222325u64
    } else {
        ((fnv1a(bytes.drop_last()) ^ (bytes.last() as u64)) as int * 0x100000001b3int % 0x10000000000000000int) as u64
    }
}

/// The FNV-1a hash of `bytes` (64-bit).
pub fn fnv1a_hash(bytes: &[u8]) -> (r: u64)
    ensures
        r == fnv1a(bytes@),
{
    let mut hash: u64 = 0xcbf29ce484222325u64;
    let mut i: usize = 0;
    while i < bytes.len()
        invariant
            i <= bytes@.len(),
            hash == fnv1a(bytes@.take(i as int)),
        decreases bytes@.len() - i,
    {
        proof {
            assert(bytes@.take(i + 1).drop_last() =~= bytes@.take(i as int));
        }
        hash = hash ^ (bytes[i] as u64);
        hash = hash.wrapping_mul(0x100000001b3u64);
        i = i + 1;
    }
    assert(bytes@.take(bytes@.len() as int) =~= bytes@);
    hash
}

/// The value of the first `session=` cookie with a value, if any.
pub open spec fn session_cookie(cookies: Seq<Seq<char>>) -> Option<Seq<char>>
    decreases cookies.len(),
{
    if cookies.len() == 0 {
        None
    } else {
        let t = trim(cookies[0]);
        if has_prefix(t, "session="@) && t.len() > 8 {
            Some(t.skip(8))
        } else {
            session_cookie(cookies.drop_first())
        }
    }
}

/// The sticky-session key of a request: the `session` cookie, else the
/// client address.
pub open spec fn session_key_spec(cookie_header: Option<Seq<char>>, client_ip: Option<Seq<char>>) -> Option<Seq<char>> {
    match cookie_header {
        Some(h) => match session_cookie(split_char(h, ';')) {
            Some(v) => Some(v),
            None => client_ip,
        },
        None => client_ip,
    }
}

/// The sticky-session key of a request: the value of the first
/// `session=<id>` cookie with a nonempty id, else the client address.
pub fn extract_session_key(cookie_header: Option<&str>, client_ip: Option<&str>) -> (r: Option<String>)
    ensures
        match session_key_spec(opt_view(cookie_header), opt_view(client_ip)) {
            Some(k) => r matches Some(s) && s@ == k,
            None => r is None,
        },
{
    if cookie_header.is_some() {
        let h = cookie_header.unwrap();
        {
            let cs = chars_of(h);
            let parts = split_chars(cs.as_slice(), ';');
            let ghost pv = views(parts@);
            let prefix: Vec<char> = vec!['s', 'e', 's', 's', 'i', 'o', 'n', '='];
            proof {
                reveal_strlit("session=");
            }
            assert(prefix@ =~= "session="@);
            let mut i: usize = 0;
            assert(pv.skip(0) =~= pv);
            while i < parts.len()
                invariant
                    i <= parts@.len(),
                    pv == views(parts@),
                    pv == split_char(h@, ';'),
                    prefix@ == "session="@,
                    cookie_header == Some(h),
                    session_cookie(pv) == session_cookie(pv.skip(i as int)),
                decreases parts@.len() - i,
            {
                let (a, b) = trim_bounds(parts[i].as_slice());
                let t = slice_range(parts[i].as_slice(), a, b);
                proof {
                    assert(pv[i as int] == parts@[i as int]@);
                    assert(pv.skip(i as int)[0] == pv[i as int]);
                    assert(pv.skip(i as int).drop_first() =~= pv.skip(i + 1));
                }
                if starts_with(t.as_slice(), prefix.as_slice()) && t.len() > 8 {
                    let v = slice_range(t.as_slice(), 8, t.len());
                    assert(v@ =~= t@.skip(8));
                    assert(t@ == trim(pv[i as int]));
                    assert(session_cookie(pv.skip(i as int)) == Some(t@.skip(8)));
                    let out = string_from_chars(v.as_slice());
                    assert(out@ == t@.skip(8));
                    return Some(out);
                }
                i = i + 1;
            }
            assert(pv.skip(parts@.len() as int) =~= Seq::<Seq<char>>::empty());
            match client_ip {
                Some(c) => Some(c.to_string()),
                None => None,
            }
        }
    } else {
        match client_ip {
            Some(c) => Some(c.to_string()),
            None => None,
        }
    }
}

/// The tunables of a pool, durations in nanoseconds.
#[derive(Debug, Clone, Copy)]
pub struct BackendPoolConfig {
    pub sticky_sessions: bool,
    pub health_check_interval: u64,
    pub health_check_timeout: u64,
    pub session_ttl: u64,
    pub session_cleanup_interval: u64,
    pub drain_timeout: u64,
    pub drain_log_interval: u64,
}

impl Default for BackendPoolConfig {
    fn default() -> (r: Self)
        ensures
            !r.sticky_sessions,
            r.health_check_interval == 5_000_000_000,
            r.health_check_timeout == 2_000_000_000,
            r.session_ttl == 1_800_000_000_000,
            r.session_cleanup_interval == 60_000_000_000,
            r.drain_timeout == 60_000_000_000,
            r.drain_log_interval == 10_000_000_000,
    {
        BackendPoolConfig {
            sticky_sessions: false,
            health_check_interval: 5_000_000_000,
            health_check_timeout: 2_000_000_000,
            session_ttl: 1_800_000_000_000,
            session_cleanup_interval: 60_000_000_000,
            drain_timeout: 60_000_000_000,
            drain_log_interval: 10_000_000_000,
        }
    }
}

/// Where a sticky session is pinned.
#[derive(Debug, Clone, PartialEq, Eq)]
pub struct SessionTarget {
    pub key: String,
    pub backend_index: usize,
}

/// A backend as the status endpoint lists it.
#[derive(Debug, Clone, PartialEq, Eq)]
pub struct BackendStatus {
    pub address: String,
    pub weight: u32,
    pub healthy: bool,
    pub draining: bool,
    pub active_conns: usize,
}

/// The answer of the drain endpoint.
#[derive(Debug, Clone, PartialEq, Eq)]
pub struct DrainResponse {
    pub address: String,
    pub draining: bool,
    pub message: String,
}

/// Why a drain was refused.
#[derive(Debug, Clone, Copy, PartialEq, Eq, Structural)]
pub enum DrainBackendError {
    NotFound,
    AlreadyDraining,
}

/// The routable backends of `bs`, in order.
pub open spec fn routables(bs: Seq<BackendView>) -> Seq<BackendView>
    decreases bs.len(),
{
    if bs.len() == 0 {
        Seq::empty()
    } else {
        routables(bs.drop_last()) + if routable(bs.last()) { seq![bs.last()] } else { Seq::empty() }
    }
}

/// The copies of a backend in the weighted pool: its weight, at least one.
pub open spec fn copies(b: BackendView) -> nat {
    if b.weight == 0 { 1 } else { b.weight as nat }
}

/// Each backend of `h` repeated by its weight.
pub open spec fn weighted_pool(h: Seq<BackendView>) -> Seq<BackendView>
    decreases h.len(),
{
    if h.len() == 0 {
        Seq::empty()
    } else {
        weighted_pool(h.drop_last()) + Seq::new(copies(h.last()), |i: int| h.last())
    }
}

/// The backends as plain values.
pub open spec fn backend_views(s: Seq<Backend>) -> Seq<BackendView> {
    s.map_values(|b: Backend| b@)
}

/// `dashmap::DashMap`, a concurrent map (of sticky sessions here, of
/// client logs in the rate limiter).
#[verifier::external_type_specification]
#[verifier::external_body]
#[verifier::reject_recursive_types(K)]
#[verifier::reject_recursive_types(V)]
#[verifier::reject_recursive_types(S)]
pub struct ExDashMap<K, V, S>(dashmap::DashMap<K, V, S>);

/// The sticky sessions: key to (backend index, expiry).
pub type SessionTable = dashmap::DashMap<String, SessionValue>;

/// A session's backend index and expiry.
pub type SessionValue = (usize, u64);

/// The sessions a session table holds: key to (backend index, expiry).
pub uninterp spec fn session_table(m: SessionTable) -> Map<Seq<char>, SessionValue>;

/// The empty session map.
pub open spec fn no_sessions() -> Map<Seq<char>, SessionValue> {
    Map::empty()
}

/// `DashMap::new`.  Claimed: the table is empty.
#[verifier::external_body]
fn new_session_table() -> (r: SessionTable)
    ensures
        session_table(r) == no_sessions(),
{
    dashmap::DashMap::new()
}

/// `DashMap::get`, copying the value out.  Claimed: the value of `key`,
/// if the table holds it.
#[verifier::external_body]
fn session_lookup(m: &SessionTable, key: &str) -> (r: Option<SessionValue>)
    ensures
        r == if session_table(*m).contains_key(key@) { Some(session_table(*m)[key@]) } else { None },
{
    m.get(key).map(|e| *e.value())
}

/// `DashMap::insert`.  Claimed: the table then maps `key` to `value`, the
/// rest unchanged.
#[verifier::external_body]
fn session_insert(m: &mut SessionTable, key: String, value: SessionValue)
    ensures
        session_table(*final(m)) == session_table(*old(m)).insert(key@, value),
{
    let _ = m.insert(key, value);
}

/// `DashMap::remove`.  Claimed: the table then lacks `key`, the rest
/// unchanged.
#[verifier::external_body]
fn session_remove(m: &mut SessionTable, key: &str)
    ensures
        session_table(*final(m)) == session_table(*old(m)).remove(key@),
{
    let _ = m.remove(key);
}

/// `DashMap::retain`, keeping the entries `keep_session` accepts.  Claimed:
/// exactly those entries remain.
#[verifier::external_body]
fn session_retain(m: &mut SessionTable, max_index: Option<usize>, now: Option<u64>)
    ensures
        session_table(*final(m)) == kept_sessions(session_table(*old(m)), max_index, now),
{
    m.retain(|_, v| keep_session(*v, max_index, now));
}

/// `DashMap::len`.  Claimed: the number of sessions held.
#[verifier::external_body]
fn session_count(m: &SessionTable) -> (r: usize)
    ensures
        r == session_table(*m).len(),
{
    m.len()
}

/// A pool of backends.
pub struct BackendPool {
    backends: Vec<Backend>,
    rr_counter: usize,
    config: BackendPoolConfig,
    sessions: SessionTable,
}

/// A pool as plain values.
pub struct PoolView {
    pub backends: Seq<BackendView>,
    pub rr_counter: usize,
    pub config: BackendPoolConfig,
    pub sessions: Map<Seq<char>, (usize, u64)>,
}

impl View for BackendPool {
    type V = PoolView;

    closed spec fn view(&self) -> PoolView {
        PoolView {
            backends: backend_views(self.backends@),
            rr_counter: self.rr_counter,
            config: self.config,
            sessions: session_table(self.sessions),
        }
    }
}

proof fn lemma_routables_len(bs: Seq<BackendView>)
    ensures
        routables(bs).len() <= bs.len(),
    decreases bs.len(),
{
    if bs.len() > 0 {
        lemma_routables_len(bs.drop_last());
    }
}

proof fn lemma_routables_prefix(bs: Seq<BackendView>, i: int)
    requires
        0 <= i <= bs.len(),
    ensures
        routables(bs.take(i)).len() <= routables(bs).len(),
        routables(bs) .take(routables(bs.take(i)).len() as int) == routables(bs.take(i)),
    decreases bs.len() - i,
{
    if i < bs.len() {
        lemma_routables_prefix(bs, i + 1);
        assert(bs.take(i + 1).drop_last() =~= bs.take(i));
        let a = routables(bs.take(i));
        let b = routables(bs.take(i + 1));
        assert(b.take(a.len() as int) =~= a);
        assert(routables(bs).take(a.len() as int) =~= b.take(a.len() as int));
    } else {
        assert(bs.take(i) =~= bs);
        assert(routables(bs).take(routables(bs).len() as int) =~= routables(bs));
    }
}

impl BackendPool {
    /// An empty pool with the default tunables.
    pub fn new() -> (r: BackendPool)
        ensures
            r@.backends.len() == 0,
            r@.rr_counter == 0,
            !r@.config.sticky_sessions,
            r@.sessions.is_empty(),
    {
        BackendPool::from_config(BackendPoolConfig::default())
    }

    /// An empty pool with the given tunables.
    pub fn from_config(config: BackendPoolConfig) -> (r: BackendPool)
        ensures
            r@.backends.len() == 0,
            r@.rr_counter == 0,
            r@.config == config,
            r@.sessions.is_empty(),
    {
        let r = BackendPool { backends: Vec::new(), rr_counter: 0, config, sessions: new_session_table() };
        assert(backend_views(r.backends@) =~= Seq::empty());
        r
    }

    /// Turns sticky sessions on or off.
    pub fn with_sticky_sessions(self, sticky_sessions: bool) -> (r: BackendPool)
        ensures
            r@ == (PoolView { config: BackendPoolConfig { sticky_sessions, ..self@.config }, ..self@ }),
    {
        let mut p = self;
        p.config.sticky_sessions = sticky_sessions;
        p
    }

    /// Sets the session lifetime.
    pub fn with_session_ttl(self, ttl: u64) -> (r: BackendPool)
        ensures
            r@ == (PoolView { config: BackendPoolConfig { session_ttl: ttl, ..self@.config }, ..self@ }),
    {
        let mut p = self;
        p.config.session_ttl = ttl;
        p
    }

    /// Sets how often backends are probed.
    pub fn with_health_check_interval(self, interval: u64) -> (r: BackendPool)
        ensures
            r@ == (PoolView { config: BackendPoolConfig { health_check_interval: interval, ..self@.config }, ..self@ }),
    {
        let mut p = self;
        p.config.health_check_interval = interval;
        p
    }

    /// Sets how long a probe may take.
    pub fn with_health_check_timeout(self, timeout: u64) -> (r: BackendPool)
        ensures
            r@ == (PoolView { config: BackendPoolConfig { health_check_timeout: timeout, ..self@.config }, ..self@ }),
    {
        let mut p = self;
        p.config.health_check_timeout = timeout;
        p
    }

    /// Sets how often expired sessions are swept.
    pub fn with_session_cleanup_interval(self, interval: u64) -> (r: BackendPool)
        ensures
            r@ == (PoolView { config: BackendPoolConfig { session_cleanup_interval: interval, ..self@.config }, ..self@ }),
    {
        let mut p = self;
        p.config.session_cleanup_interval = interval;
        p
    }

    /// Sets how often drain progress is reported.
    pub fn with_drain_log_interval(self, interval: u64) -> (r: BackendPool)
        ensures
            r@ == (PoolView { config: BackendPoolConfig { drain_log_interval: interval, ..self@.config }, ..self@ }),
    {
        let mut p = self;
        p.config.drain_log_interval = interval;
        p
    }

    /// Sets the drain timeout.
    pub fn with_drain_timeout(self, timeout: u64) -> (r: BackendPool)
        ensures
            r@ == (PoolView { config: BackendPoolConfig { drain_timeout: timeout, ..self@.config }, ..self@ }),
    {
        let mut p = self;
        p.config.drain_timeout = timeout;
        p
    }

    /// The pool's tunables.
    pub fn config(&self) -> (r: BackendPoolConfig)
        ensures
            r == self@.config,
    {
        self.config
    }

    /// Adds a backend at the end of the pool.
    pub fn add(&mut self, backend: Backend)
        ensures
            final(self)@ == (PoolView { backends: old(self)@.backends.push(backend@), ..old(self)@ }),
    {
        let ghost b = backend@;
        self.backends.push(backend);
        assert(backend_views(self.backends@) =~= old(self)@.backends.push(b));
    }

    /// The number of routable backends among the first `end`.
    fn count_routable(&self, end: usize) -> (r: usize)
        requires
            end <= self@.backends.len(),
        ensures
            r == routables(self@.backends.take(end as int)).len(),
    {
        let ghost bs = self@.backends;
        let mut n: usize = 0;
        let mut i: usize = 0;
        assert(bs.take(0) =~= Seq::<BackendView>::empty());
        while i < end
            invariant
                i <= end,
                end <= bs.len(),
                bs == self@.backends,
                n == routables(bs.take(i as int)).len(),
                n <= i,
            decreases end - i,
        {
            proof {
                assert(bs.take(i + 1).drop_last() =~= bs.take(i as int));
                assert(bs[i as int] == self.backends@[i as int]@);
            }
            if self.backends[i].is_routable() {
                n = n + 1;
            }
            i = i + 1;
        }
        n
    }

    /// The position in the pool of routable backend number `k`.
    fn routable_position(&self, k: usize) -> (r: usize)
        requires
            k < routables(self@.backends).len(),
        ensures
            r < self@.backends.len(),
            self@.backends[r as int] == routables(self@.backends)[k as int],
    {
        let ghost bs = self@.backends;
        let mut seen: usize = 0;
        let mut i: usize = 0;
        assert(bs.take(0) =~= Seq::<BackendView>::empty());
        proof {
            assert(bs.take(bs.len() as int) =~= bs);
        }
        while i < self.backends.len()
            invariant
                i <= bs.len(),
                bs == self@.backends,
                seen == routables(bs.take(i as int)).len(),
                seen <= k,
                k < routables(bs).len(),
            decreases bs.len() - i,
        {
            proof {
                assert(bs.take(i + 1).drop_last() =~= bs.take(i as int));
                assert(bs[i as int] == self.backends@[i as int]@);
                lemma_routables_prefix(bs, i + 1);
            }
            if self.backends[i].is_routable() {
                if seen == k {
                    proof {
                        let t = routables(bs.take(i + 1));
                        assert(t.len() == seen + 1);
                        assert(t[seen as int] == bs[i as int]);
                        assert(routables(bs).take(t.len() as int)[seen as int] == routables(bs)[k as int]);
                    }
                    return i;
                }
                seen = seen + 1;
            }
            i = i + 1;
        }
        proof {
            assert(bs.take(bs.len() as int) =~= bs);
        }
        0
    }

    /// The position of the next routable backend in turn (the counter
    /// advances, and wraps, only when there is one).
    fn next_round_robin_pos(&mut self) -> (r: Option<usize>)
        ensures
            round_robin_picked(old(self)@, final(self)@, r),
    {
        let n = self.count_routable(self.backends.len());
        assert(self@.backends.take(self@.backends.len() as int) =~= self@.backends);
        if n == 0 {
            return None;
        }
        let c = self.rr_counter;
        self.rr_counter = c.wrapping_add(1);
        let pos = self.routable_position(c % n);
        Some(pos)
    }

    /// Picks the next routable backend in turn (the counter advances, and
    /// wraps, only when there is one).
    pub fn next_round_robin(&mut self) -> (r: Option<&Backend>)
        ensures
            final(self)@.backends == old(self)@.backends,
            final(self)@.config == old(self)@.config,
            final(self)@.sessions == old(self)@.sessions,
            ({
                let h = routables(old(self)@.backends);
                if h.len() == 0 {
                    r is None && final(self)@.rr_counter == old(self)@.rr_counter
                } else {
                    (r matches Some(b) && b@ == h[(old(self)@.rr_counter as int) % (h.len() as int)])
                        && final(self)@.rr_counter == (if old(self)@.rr_counter == usize::MAX { 0 } else { old(self)@.rr_counter + 1 })
                }
            }),
    {
        match self.next_round_robin_pos() {
            Some(p) => Some(&self.backends[p]),
            None => None,
        }
    }
}

/// True when backend `j` is the first routable backend with the fewest
/// active connections.
pub open spec fn least_loaded(bs: Seq<BackendView>, j: int) -> bool {
    &&& 0 <= j < bs.len()
    &&& routable(bs[j])
    &&& forall|i: int| 0 <= i < bs.len() && routable(#[trigger] bs[i]) ==> bs[j].active_conns <= bs[i].active_conns
    &&& forall|i: int| 0 <= i < j && routable(#[trigger] bs[i]) ==> bs[j].active_conns < bs[i].active_conns
}

/// Weighted round robin gives each routable backend a run of consecutive
/// slots as long as its weight (at least one): the slots after those of the
/// backends before it all hold it.
pub proof fn weighted_slots_hold_backend(h: Seq<BackendView>, i: int, p: int)
    requires
        0 <= i < h.len(),
        weighted_pool(h.take(i)).len() <= p < weighted_pool(h.take(i)).len() + copies(h[i]),
    ensures
        p < weighted_pool(h).len(),
        weighted_pool(h)[p] == h[i],
    decreases h.len(),
{
    if i < h.len() - 1 {
        let d = h.drop_last();
        assert(d.take(i) =~= h.take(i));
        assert(d[i] == h[i]);
        weighted_slots_hold_backend(d, i, p);
        assert(weighted_pool(h) == weighted_pool(d) + Seq::new(copies(h.last()), |k: int| h.last()));
    } else {
        assert(h.take(i) =~= h.drop_last());
    }
}

proof fn lemma_weighted_pool_len(h: Seq<BackendView>, i: int)
    requires
        0 <= i < h.len(),
    ensures
        weighted_pool(h.take(i + 1)).len() == weighted_pool(h.take(i)).len() + copies(h[i]),
{
    assert(h.take(i + 1).drop_last() =~= h.take(i));
}

impl BackendPool {
    /// Picks the routable backend with the fewest active connections (the
    /// first of them on a tie).
    pub fn next_least_connections(&self) -> (r: Option<&Backend>)
        ensures
            r is None <==> forall|i: int| 0 <= i < self@.backends.len() ==> !routable(#[trigger] self@.backends[i]),
            r matches Some(b) ==> exists|j: int| least_loaded(self@.backends, j) && b@ == self@.backends[j],
    {
        let ghost bs = self@.backends;
        let mut best: Option<usize> = None;
        let mut i: usize = 0;
        while i < self.backends.len()
            invariant
                i <= bs.len(),
                bs == self@.backends,
                best is None ==> forall|k: int| 0 <= k < i ==> !routable(#[trigger] bs[k]),
                best matches Some(j) ==> j < i && routable(bs[j as int]) && (forall|k: int|
                    0 <= k < i && routable(#[trigger] bs[k]) ==> bs[j as int].active_conns <= bs[k].active_conns)
                    && (forall|k: int| 0 <= k < j && routable(#[trigger] bs[k]) ==> bs[j as int].active_conns < bs[k].active_conns),
            decreases bs.len() - i,
        {
            assert(bs[i as int] == self.backends@[i as int]@);
            if self.backends[i].is_routable() {
                match best {
                    None => {
                        best = Some(i);
                    },
                    Some(j) => {
                        assert(bs[j as int] == self.backends@[j as int]@);
                        if self.backends[i].active_conns < self.backends[j].active_conns {
                            best = Some(i);
                        }
                    },
                }
            }
            i = i + 1;
        }
        match best {
            None => None,
            Some(j) => Some(&self.backends[j]),
        }
    }

    /// Picks the next backend of the weighted pool, in which each routable
    /// backend appears as often as its weight (at least once).
    pub fn next_weighted_round_robin(&mut self) -> (r: Option<&Backend>)
        ensures
            final(self)@.backends == old(self)@.backends,
            final(self)@.config == old(self)@.config,
            final(self)@.sessions == old(self)@.sessions,
            ({
                let w = weighted_pool(routables(old(self)@.backends));
                if w.len() == 0 {
                    r is None && final(self)@.rr_counter == old(self)@.rr_counter
                } else {
                    (r matches Some(b) && b@ == w[(old(self)@.rr_counter as int) % (w.len() as int)])
                        && final(self)@.rr_counter == (if old(self)@.rr_counter == usize::MAX { 0 } else { old(self)@.rr_counter + 1 })
                }
            }),
    {
        let ghost bs = self@.backends;
        let ghost h = routables(bs);
        let n = self.count_routable(self.backends.len());
        assert(bs.take(bs.len() as int) =~= bs);
        let mut total: u128 = 0;
        let mut k: usize = 0;
        assert(h.take(0) =~= Seq::<BackendView>::empty());
        while k < n
            invariant
                k <= n,
                n == h.len(),
                h == routables(bs),
                bs == self@.backends,
                total == weighted_pool(h.take(k as int)).len(),
                total <= k * 0x1_0000_0000,
                self.backends == old(self).backends,
                self.sessions == old(self).sessions,
                self.config == old(self).config,
                self.rr_counter == old(self).rr_counter,
            decreases n - k,
        {
            let pos = self.routable_position(k);
            let w = self.backends[pos].weight;
            let c: u128 = if w == 0 { 1 } else { w as u128 };
            proof {
                assert(bs[pos as int] == self.backends@[pos as int]@);
                lemma_weighted_pool_len(h, k as int);
                lemma_routables_len(bs);
            }
            total = total + c;
            k = k + 1;
        }
        assert(h.take(n as int) =~= h);
        if total == 0 {
            return None;
        }
        let counter = self.rr_counter;
        self.rr_counter = counter.wrapping_add(1);
        let mut pick: u128 = (counter as u128) % total;
        let mut k: usize = 0;
        let mut start: u128 = 0;
        assert(h.take(0) =~= Seq::<BackendView>::empty());
        while k < n
            invariant
                self.backends == old(self).backends,
                self.sessions == old(self).sessions,
                self.config == old(self).config,
                self.rr_counter == (if counter == usize::MAX { 0 } else { (counter + 1) as usize }),
                counter == old(self).rr_counter,
                k <= n,
                n == h.len(),
                h == routables(bs),
                bs == self@.backends,
                total == weighted_pool(h).len(),
                start == weighted_pool(h.take(k as int)).len(),
                start + pick == (counter as int) % (total as int),
                start + pick < total,
            decreases n - k,
        {
            let pos = self.routable_position(k);
            let w = self.backends[pos].weight;
            let c: u128 = if w == 0 { 1 } else { w as u128 };
            proof {
                assert(bs[pos as int] == self.backends@[pos as int]@);
                lemma_weighted_pool_len(h, k as int);
            }
            if pick < c {
                proof {
                    weighted_slots_hold_backend(h, k as int, (start + pick) as int);
                }
                return Some(&self.backends[pos]);
            }
            pick = pick - c;
            start = start + c;
            k = k + 1;
        }
        proof {
            assert(h.take(n as int) =~= h);
        }
        None
    }
}

impl BackendPool {
    /// Pins session `key` to backend `backend_index` until `expires_at`.
    fn upsert_session(&mut self, key: &str, backend_index: usize, expires_at: u64)
        ensures
            final(self)@ == (PoolView {
                sessions: old(self)@.sessions.insert(key@, (backend_index, expires_at)),
                ..old(self)@
            }),
    {
        session_insert(&mut self.sessions, key.to_string(), (backend_index, expires_at));
    }

    /// Forgets session `key`.
    fn remove_session(&mut self, key: &str)
        ensures
            final(self)@ == (PoolView { sessions: old(self)@.sessions.remove(key@), ..old(self)@ }),
    {
        session_remove(&mut self.sessions, key);
    }

    /// The number of sticky sessions.
    pub fn sessions_len(&self) -> (r: usize)
        ensures
            r == self@.sessions.len(),
    {
        session_count(&self.sessions)
    }
}

/// The backends of `bs` whose address is not `a`.
pub open spec fn without_address(bs: Seq<BackendView>, a: Seq<char>) -> Seq<BackendView>
    decreases bs.len(),
{
    if bs.len() == 0 {
        Seq::empty()
    } else {
        without_address(bs.drop_last(), a) + if bs.last().address != a { seq![bs.last()] } else { Seq::empty() }
    }
}

/// The sessions kept by a sweep: those pinned below `max_index` (when
/// given) and expiring after `now` (when given).
pub open spec fn kept_sessions(
    m: Map<Seq<char>, (usize, u64)>,
    max_index: Option<usize>,
    now: Option<u64>,
) -> Map<Seq<char>, (usize, u64)> {
    Map::new(
        |k: Seq<char>| m.contains_key(k) && keep_entry(m[k], max_index, now),
        |k: Seq<char>| m[k],
    )
}

/// Tests whether a sweep keeps a session entry.
pub fn keep_session(v: (usize, u64), max_index: Option<usize>, now: Option<u64>) -> (r: bool)
    ensures
        r == keep_entry(v, max_index, now),
{
    (match max_index {
        Some(n) => v.0 < n,
        None => true,
    }) && (match now {
        Some(t) => v.1 > t,
        None => true,
    })
}

/// True for a session entry a sweep keeps.
pub open spec fn keep_entry(v: (usize, u64), max_index: Option<usize>, now: Option<u64>) -> bool {
    (match max_index { Some(n) => v.0 < n, None => true }) && (match now { Some(t) => v.1 > t, None => true })
}

/// The first position of a backend with address `a`.
pub open spec fn first_with_address(bs: Seq<BackendView>, a: Seq<char>, i: int) -> bool {
    0 <= i < bs.len() && bs[i].address == a && forall|k: int| 0 <= k < i ==> (#[trigger] bs[k]).address != a
}

/// `a + b`, saturating.
pub open spec fn sat_add(a: u64, b: u64) -> u64 {
    if a + b > u64::MAX { u64::MAX } else { (a + b) as u64 }
}

/// The bucket a session key hashes to among `n` backends.
pub open spec fn hashed_index(key: Seq<char>, n: nat) -> int {
    ((fnv1a(vstd::utf8::encode_utf8(key)) as usize) as int) % (n as int)
}

impl BackendPool {
    fn retain_sessions(&mut self, max_index: Option<usize>, now: Option<u64>)
        ensures
            final(self)@ == (PoolView { sessions: kept_sessions(old(self)@.sessions, max_index, now), ..old(self)@ }),
    {
        session_retain(&mut self.sessions, max_index, now);
    }

    /// Removes every backend with address `address`; sessions pinned past
    /// the end of the shorter pool are dropped.
    pub fn remove(&mut self, address: &str)
        ensures
            final(self)@.backends == without_address(old(self)@.backends, address@),
            final(self)@.sessions == kept_sessions(
                old(self)@.sessions,
                Some(without_address(old(self)@.backends, address@).len() as usize),
                None,
            ),
            final(self)@.rr_counter == old(self)@.rr_counter,
            final(self)@.config == old(self)@.config,
    {
        let ghost bs = old(self)@.backends;
        let mut kept: Vec<Backend> = Vec::new();
        let mut rest: Vec<Backend> = Vec::new();
        std::mem::swap(&mut rest, &mut self.backends);
        let n = rest.len();
        let mut i: usize = 0;
        assert(bs.take(0) =~= Seq::<BackendView>::empty());
        assert(backend_views(rest@) == bs);
        assert(backend_views(rest@).skip(0) =~= bs);
        while i < n
            invariant
                0 <= i <= n,
                n == bs.len(),
                backend_views(rest@) == bs.skip(i as int),
                backend_views(kept@) == without_address(bs.take(i as int), address@),
                self.sessions == old(self).sessions,
                self.rr_counter == old(self).rr_counter,
                self.config == old(self).config,
            decreases n - i,
        {
            let ghost rv = backend_views(rest@);
            let ghost rs = rest@;
            assert(rv.len() == rest@.len());
            let b = rest.remove(0);
            assert(rest@ == rs.remove(0));
            assert(backend_views(rest@) =~= rv.drop_first());
            proof {
                assert(bs.take(i + 1).drop_last() =~= bs.take(i as int));
                assert(rv[0] == b@);
                assert(bs[i as int] == b@);
                assert(backend_views(rest@) =~= bs.skip(i + 1));
            }
            let ghost before = backend_views(kept@);
            if !str_eq(b.address.as_str(), address) {
                let ghost bv = b@;
                kept.push(b);
                assert(backend_views(kept@) =~= before.push(bv));
            }
            i = i + 1;
        }
        assert(bs.take(n as int) =~= bs);
        let len = kept.len();
        self.backends = kept;
        self.retain_sessions(Some(len), None);
    }

    /// The first position of a backend with address `address`.
    pub fn backend_index_by_address(&self, address: &str) -> (r: Option<usize>)
        ensures
            r matches Some(i) ==> first_with_address(self@.backends, address@, i as int),
            r is None ==> forall|k: int| 0 <= k < self@.backends.len() ==> (#[trigger] self@.backends[k]).address != address@,
    {
        let mut i: usize = 0;
        while i < self.backends.len()
            invariant
                i <= self@.backends.len(),
                forall|k: int| 0 <= k < i ==> (#[trigger] self@.backends[k]).address != address@,
            decreases self@.backends.len() - i,
        {
            assert(self@.backends[i as int] == self.backends@[i as int]@);
            if str_eq(self.backends[i].address.as_str(), address) {
                return Some(i);
            }
            i = i + 1;
        }
        None
    }

    /// Drops the sessions that expired by `now`.
    pub fn cleanup_sessions(&mut self, now: u64)
        ensures
            final(self)@ == (PoolView { sessions: kept_sessions(old(self)@.sessions, None, Some(now)), ..old(self)@ }),
    {
        self.retain_sessions(None, Some(now));
    }

    /// The status of every backend, in pool order.
    pub fn get_backends_status(&self) -> (r: Vec<BackendStatus>)
        ensures
            r@.len() == self@.backends.len(),
            forall|i: int| 0 <= i < r@.len() ==> {
                let b = #[trigger] self@.backends[i];
                r@[i].address@ == b.address && r@[i].weight == b.weight && r@[i].healthy == b.healthy
                    && r@[i].draining == b.draining && r@[i].active_conns == b.active_conns
            },
    {
        let mut out: Vec<BackendStatus> = Vec::new();
        let mut i: usize = 0;
        while i < self.backends.len()
            invariant
                i <= self@.backends.len(),
                out@.len() == i,
                forall|k: int| 0 <= k < i ==> {
                    let b = #[trigger] self@.backends[k];
                    out@[k].address@ == b.address && out@[k].weight == b.weight && out@[k].healthy == b.healthy
                        && out@[k].draining == b.draining && out@[k].active_conns == b.active_conns
                },
            decreases self@.backends.len() - i,
        {
            let b = &self.backends[i];
            assert(self@.backends[i as int] == b@);
            out.push(BackendStatus {
                address: b.address.clone(),
                weight: b.weight,
                healthy: b.healthy,
                draining: b.draining,
                active_conns: b.active_conns,
            });
            i = i + 1;
        }
        out
    }

    /// The backend at position `i`.
    pub fn backend_at(&self, i: usize) -> (r: &Backend)
        requires
            i < self@.backends.len(),
        ensures
            r@ == self@.backends[i as int],
    {
        &self.backends[i]
    }

    /// Sets the health of the backends with address `address`.
    pub fn set_healthy(&mut self, address: &str, status: bool)
        ensures
            final(self)@.backends.len() == old(self)@.backends.len(),
            forall|i: int| 0 <= i < old(self)@.backends.len() ==> (#[trigger] final(self)@.backends[i]) == if old(self)@.backends[i].address == address@ {
                BackendView { healthy: status, ..old(self)@.backends[i] }
            } else {
                old(self)@.backends[i]
            },
            final(self)@.rr_counter == old(self)@.rr_counter,
            final(self)@.config == old(self)@.config,
            final(self)@.sessions == old(self)@.sessions,
    {
        let ghost bs = old(self)@.backends;
        let mut i: usize = 0;
        while i < self.backends.len()
            invariant
                self.sessions == old(self).sessions,
                self.rr_counter == old(self).rr_counter,
                self.config == old(self).config,
                self@.backends.len() == bs.len(),
                i <= bs.len(),
                forall|k: int| 0 <= k < bs.len() ==> (#[trigger] self@.backends[k]) == if k < i && bs[k].address == address@ {
                    BackendView { healthy: status, ..bs[k] }
                } else {
                    bs[k]
                },
            decreases bs.len() - i,
        {
            if str_eq(self.backends[i].address.as_str(), address) {
                let ghost before = self.backends@;
                assert(self@.backends[i as int] == bs[i as int]);
                assert(before[i as int]@ == bs[i as int]);
                let mut b = self.backends.remove(i);
                b.healthy = status;
                let ghost bv = b@;
                assert(bv == (BackendView { healthy: status, ..bs[i as int] }));
                self.backends.insert(i, b);
                assert(self.backends@ =~= before.update(i as int, b));
                assert(backend_views(self.backends@) =~= backend_views(before).update(i as int, bv));
            }
            i = i + 1;
        }
    }

    /// Sets the active connection count of the backends with address
    /// `address`.
    pub fn set_active_conns(&mut self, address: &str, conns: usize)
        ensures
            final(self)@.backends.len() == old(self)@.backends.len(),
            forall|i: int| 0 <= i < old(self)@.backends.len() ==> (#[trigger] final(self)@.backends[i]) == if old(self)@.backends[i].address == address@ {
                BackendView { active_conns: conns, ..old(self)@.backends[i] }
            } else {
                old(self)@.backends[i]
            },
            final(self)@.rr_counter == old(self)@.rr_counter,
            final(self)@.config == old(self)@.config,
            final(self)@.sessions == old(self)@.sessions,
    {
        let ghost bs = old(self)@.backends;
        let mut i: usize = 0;
        while i < self.backends.len()
            invariant
                self.sessions == old(self).sessions,
                self.rr_counter == old(self).rr_counter,
                self.config == old(self).config,
                self@.backends.len() == bs.len(),
                i <= bs.len(),
                forall|k: int| 0 <= k < bs.len() ==> (#[trigger] self@.backends[k]) == if k < i && bs[k].address == address@ {
                    BackendView { active_conns: conns, ..bs[k] }
                } else {
                    bs[k]
                },
            decreases bs.len() - i,
        {
            if str_eq(self.backends[i].address.as_str(), address) {
                let ghost before = self.backends@;
                assert(self@.backends[i as int] == bs[i as int]);
                assert(before[i as int]@ == bs[i as int]);
                let mut b = self.backends.remove(i);
                b.active_conns = conns;
                let ghost bv = b@;
                assert(bv == (BackendView { active_conns: conns, ..bs[i as int] }));
                self.backends.insert(i, b);
                assert(self.backends@ =~= before.update(i as int, b));
                assert(backend_views(self.backends@) =~= backend_views(before).update(i as int, bv));
            }
            i = i + 1;
        }
    }
}

/// The outcome of picking a sticky backend for session `key` at `now`:
/// `r` holds the position of the backend picked and the position the
/// session is pinned to.  A live session on a healthy backend is kept and
/// refreshed; else the key's hash picks a healthy backend; else round robin
/// does, and the session is pinned to the first backend with its address.
pub open spec fn sticky_selected(old: PoolView, new: PoolView, key: Seq<char>, now: u64, r: Option<(usize, usize)>) -> bool {
    let bs = old.backends;
    let m = old.sessions;
    let exp = sat_add(now, old.config.session_ttl);
    let live = m.contains_key(key) && m[key].1 > now && m[key].0 < bs.len() && bs[m[key].0 as int].healthy;
    &&& new.backends == old.backends
    &&& new.config == old.config
    &&& if live {
        r == Some((m[key].0, m[key].0)) && new.rr_counter == old.rr_counter
            && new.sessions == m.insert(key, (m[key].0, exp))
    } else if bs.len() == 0 {
        r is None && new.rr_counter == old.rr_counter && new.sessions == m.remove(key)
    } else if bs[hashed_index(key, bs.len())].healthy {
        let h = hashed_index(key, bs.len());
        r == Some((h as usize, h as usize)) && new.rr_counter == old.rr_counter
            && new.sessions == m.insert(key, (h as usize, exp))
    } else {
        let rt = routables(bs);
        if rt.len() == 0 {
            r is None && new == old
        } else {
            r matches Some((j, idx)) && j < bs.len() && bs[j as int] == rt[(old.rr_counter as int) % (rt.len() as int)]
                && first_with_address(bs, bs[j as int].address, idx as int) && new.sessions == m.insert(
                key,
                (idx, exp),
            ) && new.rr_counter == (if old.rr_counter == usize::MAX { 0 } else { (old.rr_counter + 1) as usize })
        }
    }
}

/// What the drain monitor does next.
#[derive(Debug, Clone, Copy, PartialEq, Eq, Structural)]
pub enum DrainStep {
    /// No connections are left: remove the backend.
    Complete,
    /// The drain timed out: remove the backend anyway.
    ForceRemove,
    /// Check again later.
    Wait,
}

/// The drain monitor's decision for a backend with `active_conns`
/// connections, `elapsed` into a drain limited to `timeout`.
pub fn drain_step(active_conns: usize, elapsed: u64, timeout: u64) -> (r: DrainStep)
    ensures
        r == if active_conns == 0 {
            DrainStep::Complete
        } else if elapsed >= timeout {
            DrainStep::ForceRemove
        } else {
            DrainStep::Wait
        },
{
    if active_conns == 0 {
        DrainStep::Complete
    } else if elapsed >= timeout {
        DrainStep::ForceRemove
    } else {
        DrainStep::Wait
    }
}

/// The drain endpoint's status code and answer for a drain request.
pub fn drain_response(address: String, result: Result<(), DrainBackendError>) -> (r: (u16, DrainResponse))
    ensures
        r.1.address@ == address@,
        match result {
            Ok(()) => r.0 == 202 && r.1.draining && r.1.message@ == "backend drain started"@,
            Err(DrainBackendError::NotFound) => r.0 == 404 && !r.1.draining && r.1.message@ == "backend not found"@,
            Err(DrainBackendError::AlreadyDraining) => r.0 == 409 && r.1.draining && r.1.message@
                == "backend is already draining"@,
        },
{
    match result {
        Ok(()) => (202, DrainResponse { address, draining: true, message: owned("backend drain started") }),
        Err(DrainBackendError::NotFound) => (404, DrainResponse { address, draining: false, message: owned("backend not found") }),
        Err(DrainBackendError::AlreadyDraining) => (
            409,
            DrainResponse { address, draining: true, message: owned("backend is already draining") },
        ),
    }
}

impl BackendPool {
    /// Picks a backend for sticky session `key` at `now`.
    pub fn select_sticky_backend(&mut self, key: &str, now: u64) -> (r: Option<(usize, usize)>)
        ensures
            sticky_selected(old(self)@, final(self)@, key@, now, r),
    {
        let exp = now.saturating_add(self.config.session_ttl);
        let n = self.backends.len();
        match session_lookup(&self.sessions, key) {
            Some((idx, expires_at)) => {
                if expires_at > now && idx < n && self.backends[idx].healthy {
                    assert(self@.backends[idx as int] == self.backends@[idx as int]@);
                    self.upsert_session(key, idx, exp);
                    return Some((idx, idx));
                }
                proof {
                    if idx < n {
                        assert(self@.backends[idx as int] == self.backends@[idx as int]@);
                    }
                }
            },
            None => {},
        }
        if n == 0 {
            self.remove_session(key);
            return None;
        }
        let hv = fnv1a_hash(key.as_bytes());
        let h = (hv as usize) % n;
        assert(self@.backends[h as int] == self.backends@[h as int]@);
        if self.backends[h].healthy {
            self.upsert_session(key, h, exp);
            return Some((h, h));
        }
        let pos = match self.next_round_robin_pos() {
            None => {
                return None;
            },
            Some(p) => p,
        };
        assert(self@.backends[pos as int] == self.backends@[pos as int]@);
        let j = match self.backend_index_by_address(self.backends[pos].address.as_str()) {
            Some(j) => j,
            None => {
                proof {
                    assert(self@.backends[pos as int].address == self.backends@[pos as int].address@);
                }
                return None;
            },
        };
        self.upsert_session(key, j, exp);
        Some((pos, j))
    }
}

proof fn lemma_routables_member(bs: Seq<BackendView>, k: int)
    requires
        0 <= k < routables(bs).len(),
    ensures
        exists|q: int| 0 <= q < bs.len() && bs[q] == routables(bs)[k] && routable(bs[q]),
    decreases bs.len(),
{
    let d = bs.drop_last();
    if k < routables(d).len() {
        lemma_routables_member(d, k);
        let q = choose|q: int| 0 <= q < d.len() && d[q] == routables(d)[k] && routable(d[q]);
        assert(bs[q] == d[q]);
    } else {
        assert(bs[bs.len() - 1] == routables(bs)[k]);
    }
}

/// The round-robin outcome: the pick `p` (a position) and the counter.
pub open spec fn round_robin_picked(old: PoolView, new: PoolView, p: Option<usize>) -> bool {
    let h = routables(old.backends);
    &&& new.backends == old.backends
    &&& new.config == old.config
    &&& new.sessions == old.sessions
    &&& if h.len() == 0 {
        p is None && new.rr_counter == old.rr_counter
    } else {
        (p matches Some(q) && q < old.backends.len() && old.backends[q as int] == h[(old.rr_counter as int) % (h.len() as int)])
            && new.rr_counter == (if old.rr_counter == usize::MAX { 0 } else { (old.rr_counter + 1) as usize })
    }
}

impl BackendPool {
    /// Picks a backend for a request: by sticky session when sticky sessions
    /// are on (keyed by the `session` cookie, else the client address), by
    /// round robin otherwise.
    pub fn next_sticky(&mut self, cookie_header: Option<&str>, client_ip: Option<&str>, now: u64) -> (r: Option<&Backend>)
        ensures
            !old(self)@.config.sticky_sessions ==> exists|p: Option<usize>| round_robin_picked(old(self)@, final(self)@, p)
                && match p {
                Some(q) => r matches Some(b) && b@ == old(self)@.backends[q as int],
                None => r is None,
            },
            old(self)@.config.sticky_sessions ==> match session_key_spec(opt_view(cookie_header), opt_view(client_ip)) {
                None => r is None && final(self)@ == old(self)@,
                Some(k) => exists|sel: Option<(usize, usize)>| sticky_selected(old(self)@, final(self)@, k, now, sel)
                    && match sel {
                    Some((j, _)) => r matches Some(b) && b@ == old(self)@.backends[j as int],
                    None => r is None,
                },
            },
    {
        if !self.config.sticky_sessions {
            let p = self.next_round_robin_pos();
            assert(round_robin_picked(old(self)@, self@, p));
            return match p {
                Some(q) => Some(&self.backends[q]),
                None => None,
            };
        }
        let key = match extract_session_key(cookie_header, client_ip) {
            Some(k) => k,
            None => {
                return None;
            },
        };
        match self.select_sticky_backend(key.as_str(), now) {
            Some((j, _)) => Some(&self.backends[j]),
            None => None,
        }
    }

    /// Like `next_sticky`, also giving the session key and the position the
    /// session is pinned to (without sticky sessions: the client address,
    /// empty when absent, and the first position with the picked address).
    pub fn next_sticky_with_target(&mut self, cookie_header: Option<&str>, client_ip: Option<&str>, now: u64) -> (r: Option<(&Backend, SessionTarget)>)
        ensures
            !old(self)@.config.sticky_sessions ==> exists|p: Option<usize>| round_robin_picked(old(self)@, final(self)@, p)
                && match p {
                Some(q) => r matches Some((b, t)) && b@ == old(self)@.backends[q as int]
                    && first_with_address(old(self)@.backends, b@.address, t.backend_index as int)
                    && t.key@ == match client_ip { Some(c) => c@, None => Seq::empty() },
                None => r is None,
            },
            old(self)@.config.sticky_sessions ==> match session_key_spec(opt_view(cookie_header), opt_view(client_ip)) {
                None => r is None && final(self)@ == old(self)@,
                Some(k) => exists|sel: Option<(usize, usize)>| sticky_selected(old(self)@, final(self)@, k, now, sel)
                    && match sel {
                    Some((j, idx)) => r matches Some((b, t)) && b@ == old(self)@.backends[j as int] && t.key@ == k
                        && t.backend_index == idx,
                    None => r is None,
                },
            },
    {
        if !self.config.sticky_sessions {
            let po = self.next_round_robin_pos();
            assert(round_robin_picked(old(self)@, self@, po));
            let p = match po {
                Some(q) => q,
                None => {
                    return None;
                },
            };
            assert(self@.backends[p as int] == self.backends@[p as int]@);
            let idx = match self.backend_index_by_address(self.backends[p].address.as_str()) {
                Some(i) => i,
                None => {
                    proof {
                        assert(self@.backends[p as int].address == self.backends@[p as int].address@);
                    }
                    return None;
                },
            };
            let key = match client_ip {
                Some(c) => c.to_string(),
                None => String::new(),
            };
            return Some((&self.backends[p], SessionTarget { key, backend_index: idx }));
        }
        let key = match extract_session_key(cookie_header, client_ip) {
            Some(k) => k,
            None => {
                return None;
            },
        };
        match self.select_sticky_backend(key.as_str(), now) {
            Some((j, idx)) => Some((&self.backends[j], SessionTarget { key, backend_index: idx })),
            None => None,
        }
    }

    /// Starts draining the first backend with address `address`: it stops
    /// taking new traffic.
    pub fn drain_backend(&mut self, address: &str) -> (r: Result<(), DrainBackendError>)
        ensures
            final(self)@.rr_counter == old(self)@.rr_counter,
            final(self)@.config == old(self)@.config,
            final(self)@.sessions == old(self)@.sessions,
            (forall|k: int| 0 <= k < old(self)@.backends.len() ==> (#[trigger] old(self)@.backends[k]).address != address@)
                ==> r == Err::<(), DrainBackendError>(DrainBackendError::NotFound) && final(self)@ == old(self)@,
            forall|i: int| first_with_address(old(self)@.backends, address@, i) ==> if old(self)@.backends[i].draining {
                r == Err::<(), DrainBackendError>(DrainBackendError::AlreadyDraining) && final(self)@ == old(self)@
            } else {
                r is Ok && final(self)@.backends == old(self)@.backends.update(
                    i,
                    BackendView { draining: true, ..old(self)@.backends[i] },
                )
            },
    {
        match self.backend_index_by_address(address) {
            None => Err(DrainBackendError::NotFound),
            Some(i) => {
                assert(self@.backends[i as int] == self.backends@[i as int]@);
                proof {
                    assert forall|j: int| first_with_address(old(self)@.backends, address@, j) implies j == i by {
                        if j < i {
                            assert(old(self)@.backends[j].address != address@);
                        }
                        if i < j {
                            assert(old(self)@.backends[i as int].address != address@);
                        }
                    }
                }
                if self.backends[i].draining {
                    return Err(DrainBackendError::AlreadyDraining);
                }
                let ghost before = self.backends@;
                let mut b = self.backends.remove(i);
                b.draining = true;
                let ghost bv = b@;
                self.backends.insert(i, b);
                assert(self.backends@ =~= before.update(i as int, b));
                assert(backend_views(self.backends@) =~= backend_views(before).update(i as int, bv));
                Ok(())
            },
        }
    }
}

/// The same session key keeps reaching the same backend: once a pick has
/// pinned a session to a healthy backend, a later pick for that key before
/// the session expires returns that backend and keeps it pinned.
pub proof fn sticky_session_repeats(
    p0: PoolView,
    p1: PoolView,
    p2: PoolView,
    key: Seq<char>,
    t1: u64,
    t2: u64,
    r1: Option<(usize, usize)>,
    r2: Option<(usize, usize)>,
)
    requires
        sticky_selected(p0, p1, key, t1, r1),
        r1 matches Some((_, idx)) && idx < p1.backends.len() && p1.backends[idx as int].healthy,
        t2 < sat_add(t1, p0.config.session_ttl),
        sticky_selected(p1, p2, key, t2, r2),
    ensures
        match r1 {
            Some((_, idx)) => r2 == Some((idx, idx)) && p2.sessions[key].0 == idx,
            None => false,
        },
{
    let idx = match r1 { Some((_, i)) => i, None => 0 };
    assert(p1.sessions.contains_key(key));
    assert(p1.sessions[key] == (idx, sat_add(t1, p0.config.session_ttl)));
}

/// True when one of the `n` picks from counter `c` lands on position `k`.
pub open spec fn picked_within(c: nat, n: nat, k: nat) -> bool {
    exists|i: nat| i < n && #[trigger] ((c + i) % n) == k
}

/// Round robin visits every routable backend once in any run of as many
/// consecutive picks as there are routable backends (while the counter does
/// not wrap): the positions picked are all different and cover them all.
pub proof fn round_robin_visits_each_once(c: nat, n: nat)
    requires
        n > 0,
    ensures
        forall|i: nat, j: nat| i < n && j < n && i != j ==> #[trigger] ((c + i) % n) != #[trigger] ((c + j) % n),
        forall|k: nat| k < n ==> #[trigger] picked_within(c, n, k),
{
    assert forall|i: nat, j: nat| i < n && j < n && i != j implies #[trigger] ((c + i) % n) != #[trigger] ((c + j) % n) by {
        if (c + i) % n == (c + j) % n {
            vstd::arithmetic::div_mod::lemma_fundamental_div_mod((c + i) as int, n as int);
            vstd::arithmetic::div_mod::lemma_fundamental_div_mod((c + j) as int, n as int);
            let qi = (c + i) / n;
            let qj = (c + j) / n;
            let r = (c + i) % n;
            assert((c + i) - (c + j) == n * (qi - qj)) by (nonlinear_arith)
                requires
                    (c + i) as int == n * qi + r,
                    (c + j) as int == n * qj + r,
            ;
            if qi > qj {
                assert(n * (qi - qj) >= n) by (nonlinear_arith)
                    requires qi - qj >= 1, n > 0;
            } else if qi < qj {
                assert(n * (qj - qi) >= n) by (nonlinear_arith)
                    requires qj - qi >= 1, n > 0;
                assert(n * (qi - qj) == -(n * (qj - qi))) by (nonlinear_arith);
            }
        }
    }
    assert forall|k: nat| k < n implies #[trigger] picked_within(c, n, k) by {
        let r = c % n;
        let i: nat = if k >= r { (k - r) as nat } else { (k + n - r) as nat };
        vstd::arithmetic::div_mod::lemma_fundamental_div_mod(c as int, n as int);
        let q = c / n;
        assert(c + i == q * n + r + i);
        if k >= r {
            assert(c + i == q * n + k);
        } else {
            assert(c + i == (q + 1) * n + k) by (nonlinear_arith)
                requires c + i == q * n + r + i, i == k + n - r;
        }
        let m: int = if k >= r { q as int } else { q as int + 1 };
        assert((c + i) as int == m * n + k);
        vstd::arithmetic::div_mod::lemma_mod_multiples_vanish(m, k as int, n as int);
        vstd::arithmetic::div_mod::lemma_small_mod(k, n);
        assert((m * n + k) % (n as int) == k as int);
        assert((c + i) % n == k);
    }
}

} // verus!
