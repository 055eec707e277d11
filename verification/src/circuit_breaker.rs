//! The circuit breaker: a rolling window of the last outcomes, and the
//! closed / open / half-open state machine it drives.
//!
//! Times and durations are nanoseconds of a monotonic clock; the failure
//! rate threshold is in hundredths of a percent (5000 is 50%).

use vstd::prelude::*;
use crate::text::owned;

verus! {

/// The state of a circuit.
#[derive(Debug, Clone, Copy, PartialEq, Eq, Structural)]
pub enum CircuitState {
    Closed,
    Open,
    HalfOpen,
}

/// Why a call was refused or failed.
#[derive(Debug, Clone, PartialEq, Eq)]
pub enum CircuitBreakerError {
    Open,
    HalfOpenProbeInFlight,
    Timeout,
    Downstream(String),
}

impl CircuitBreakerError {
    /// The error's message.
    pub fn message(&self) -> (r: String)
        ensures
            r@ == match self {
                CircuitBreakerError::Open => "circuit is open"@,
                CircuitBreakerError::HalfOpenProbeInFlight => "half-open probe is already in flight"@,
                CircuitBreakerError::Timeout => "downstream request timed out"@,
                CircuitBreakerError::Downstream(m) => m@,
            },
    {
        match self {
            CircuitBreakerError::Open => owned("circuit is open"),
            CircuitBreakerError::HalfOpenProbeInFlight => owned("half-open probe is already in flight"),
            CircuitBreakerError::Timeout => owned("downstream request timed out"),
            CircuitBreakerError::Downstream(m) => m.clone(),
        }
    }
}

/// How a call ended.
#[derive(Debug, Clone, Copy, PartialEq, Eq, Structural)]
pub enum RequestOutcome {
    Success,
    Failure,
    Timeout,
}

/// How many of `w` are `o`.
pub open spec fn count_of(w: Seq<RequestOutcome>, o: RequestOutcome) -> nat
    decreases w.len(),
{
    if w.len() == 0 {
        0
    } else {
        count_of(w.drop_last(), o) + if w.last() == o { 1nat } else { 0nat }
    }
}

/// The window after recording `o` into window `w` of capacity `n`: the
/// oldest outcome drops out once the window is full.
pub open spec fn window_push(w: Seq<RequestOutcome>, n: nat, o: RequestOutcome) -> Seq<RequestOutcome> {
    if w.len() < n {
        w.push(o)
    } else {
        w.drop_first().push(o)
    }
}

/// The last `n` outcomes of `s` (all of them when there are fewer).
pub open spec fn last_n(s: Seq<RequestOutcome>, n: nat) -> Seq<RequestOutcome> {
    if s.len() <= n {
        s
    } else {
        s.skip(s.len() - n)
    }
}

/// The window after recording each of `s` in turn into window `w`.
pub open spec fn window_after(w: Seq<RequestOutcome>, n: nat, s: Seq<RequestOutcome>) -> Seq<RequestOutcome>
    decreases s.len(),
{
    if s.len() == 0 {
        w
    } else {
        window_push(window_after(w, n, s.drop_last()), n, s.last())
    }
}

/// A ring buffer of the last `capacity` outcomes, with a count of each kind.
pub struct RollingWindowMetrics {
    buckets: Vec<Option<RequestOutcome>>,
    next_index: usize,
    len: usize,
    success_count: usize,
    failure_count: usize,
    timeout_count: usize,
    window: Ghost<Seq<RequestOutcome>>,
}

/// The counts the window reports.
pub struct CircuitMetricsSnapshot {
    pub total_requests: usize,
    pub success_count: usize,
    pub failure_count: usize,
    pub timeout_count: usize,
}

impl RollingWindowMetrics {
    /// The outcomes in the window, oldest first.
    pub closed spec fn outcomes(&self) -> Seq<RequestOutcome> {
        self.window@
    }

    /// The number of outcomes the window keeps.
    pub closed spec fn capacity(&self) -> nat {
        self.buckets@.len()
    }

    /// The internal consistency of the ring buffer and its counts.
    pub closed spec fn wf(&self) -> bool {
        let n = self.buckets@.len();
        let w = self.window@;
        &&& n >= 1
        &&& self.next_index < n
        &&& self.len == w.len()
        &&& w.len() <= n
        &&& self.success_count == count_of(w, RequestOutcome::Success)
        &&& self.failure_count == count_of(w, RequestOutcome::Failure)
        &&& self.timeout_count == count_of(w, RequestOutcome::Timeout)
        &&& w.len() < n ==> {
            &&& self.next_index == w.len()
            &&& forall|k: int| 0 <= k < w.len() ==> self.buckets@[k] == Some(w[k])
            &&& forall|k: int| w.len() <= k < n ==> self.buckets@[k] is None
        }
        &&& w.len() == n ==> forall|k: int|
            0 <= k < n ==> self.buckets@[(self.next_index + k) % (n as int)] == Some(w[k])
    }

    /// An empty window of `capacity` outcomes (at least one).
    pub fn new(capacity: usize) -> (r: Self)
        ensures
            r.wf(),
            r.outcomes().len() == 0,
            r.capacity() == if capacity == 0 { 1 } else { capacity },
    {
        let n: usize = if capacity == 0 { 1 } else { capacity };
        let buckets: Vec<Option<RequestOutcome>> = vec![None; n];
        RollingWindowMetrics {
            buckets,
            next_index: 0,
            len: 0,
            success_count: 0,
            failure_count: 0,
            timeout_count: 0,
            window: Ghost(Seq::empty()),
        }
    }

    /// The counts of the outcomes in the window.
    pub fn snapshot(&self) -> (r: CircuitMetricsSnapshot)
        requires
            self.wf(),
        ensures
            r.total_requests == self.outcomes().len(),
            r.success_count == count_of(self.outcomes(), RequestOutcome::Success),
            r.failure_count == count_of(self.outcomes(), RequestOutcome::Failure),
            r.timeout_count == count_of(self.outcomes(), RequestOutcome::Timeout),
    {
        CircuitMetricsSnapshot {
            total_requests: self.len,
            success_count: self.success_count,
            failure_count: self.failure_count,
            timeout_count: self.timeout_count,
        }
    }
}

proof fn lemma_count_le_len(w: Seq<RequestOutcome>, o: RequestOutcome)
    ensures
        count_of(w, o) <= w.len(),
    decreases w.len(),
{
    if w.len() > 0 {
        lemma_count_le_len(w.drop_last(), o);
    }
}

proof fn lemma_count_drop_first(w: Seq<RequestOutcome>, o: RequestOutcome)
    requires
        w.len() > 0,
    ensures
        count_of(w, o) == count_of(w.drop_first(), o) + if w[0] == o { 1nat } else { 0nat },
    decreases w.len(),
{
    if w.len() > 1 {
        lemma_count_drop_first(w.drop_last(), o);
        assert(w.drop_last().drop_first() =~= w.drop_first().drop_last());
    } else {
        assert(w.drop_first() =~= Seq::<RequestOutcome>::empty());
        assert(w.drop_last() =~= Seq::<RequestOutcome>::empty());
    }
}

proof fn lemma_count_push(w: Seq<RequestOutcome>, x: RequestOutcome, o: RequestOutcome)
    ensures
        count_of(w.push(x), o) == count_of(w, o) + if x == o { 1nat } else { 0nat },
{
    assert(w.push(x).drop_last() =~= w);
}

impl RollingWindowMetrics {
    /// Records one outcome; once the window is full the oldest drops out.
    pub fn record(&mut self, outcome: RequestOutcome)
        requires
            old(self).wf(),
        ensures
            final(self).wf(),
            final(self).capacity() == old(self).capacity(),
            final(self).outcomes() == window_push(old(self).outcomes(), old(self).capacity(), outcome),
    {
        let n = self.buckets.len();
        let ghost w = self.window@;
        let ghost nn = n as int;
        let idx = self.next_index;
        proof {
            lemma_count_le_len(w, RequestOutcome::Success);
            lemma_count_le_len(w, RequestOutcome::Failure);
            lemma_count_le_len(w, RequestOutcome::Timeout);
        }
        let ghost new_w: Seq<RequestOutcome>;
        match self.buckets[idx] {
            Some(prev) => {
                proof {
                    if w.len() < n {
                        assert(self.buckets@[idx as int] is None);
                    }
                    assert(w.len() == n);
                    assert((idx + 0) % nn == idx as int) by {
                        vstd::arithmetic::div_mod::lemma_small_mod(idx as nat, n as nat);
                    }
                    assert(prev == w[0]);
                    lemma_count_drop_first(w, RequestOutcome::Success);
                    lemma_count_drop_first(w, RequestOutcome::Failure);
                    lemma_count_drop_first(w, RequestOutcome::Timeout);
                }
                match prev {
                    RequestOutcome::Success => self.success_count = self.success_count - 1,
                    RequestOutcome::Failure => self.failure_count = self.failure_count - 1,
                    RequestOutcome::Timeout => self.timeout_count = self.timeout_count - 1,
                }
                proof {
                    new_w = w.drop_first().push(outcome);
                }
            },
            None => {
                proof {
                    if w.len() == n {
                        assert((idx + 0) % nn == idx as int) by {
                            vstd::arithmetic::div_mod::lemma_small_mod(idx as nat, n as nat);
                        }
                        assert(self.buckets@[idx as int] == Some(w[0]));
                        assert(false);
                    }
                }
                self.len = self.len + 1;
                proof {
                    new_w = w.push(outcome);
                }
            },
        }
        proof {
            lemma_count_push(if w.len() == n { w.drop_first() } else { w }, outcome, RequestOutcome::Success);
            lemma_count_push(if w.len() == n { w.drop_first() } else { w }, outcome, RequestOutcome::Failure);
            lemma_count_push(if w.len() == n { w.drop_first() } else { w }, outcome, RequestOutcome::Timeout);
            lemma_count_le_len(new_w, RequestOutcome::Success);
            lemma_count_le_len(new_w, RequestOutcome::Failure);
            lemma_count_le_len(new_w, RequestOutcome::Timeout);
            assert(new_w.len() <= n);
        }
        let ghost old_buckets = self.buckets@;
        self.buckets.set(idx, Some(outcome));
        match outcome {
            RequestOutcome::Success => self.success_count = self.success_count + 1,
            RequestOutcome::Failure => self.failure_count = self.failure_count + 1,
            RequestOutcome::Timeout => self.timeout_count = self.timeout_count + 1,
        }
        self.next_index = if idx + 1 == n { 0 } else { idx + 1 };
        self.window = Ghost(new_w);
        proof {
            let nx = self.next_index as int;
            if w.len() < n {
                assert(new_w.len() == w.len() + 1);
                if new_w.len() == n {
                    assert(nx == 0);
                    assert forall|k: int| 0 <= k < n implies self.buckets@[(nx + k) % nn] == Some(new_w[k]) by {
                        vstd::arithmetic::div_mod::lemma_small_mod(k as nat, n as nat);
                    }
                }
            } else {
                assert forall|k: int| 0 <= k < n implies self.buckets@[(nx + k) % nn] == Some(new_w[k]) by {
                    if k + 1 < n {
                        assert((nx + k) % nn == (idx + (k + 1)) % nn) by {
                            if idx + 1 == n {
                                vstd::arithmetic::div_mod::lemma_small_mod(k as nat, n as nat);
                                vstd::arithmetic::div_mod::lemma_mod_add_multiples_vanish(k, nn);
                                assert(idx + (k + 1) == k + nn);
                            }
                        }
                        assert((idx + (k + 1)) % nn != idx as int) by {
                            if idx + k + 1 < nn {
                                vstd::arithmetic::div_mod::lemma_small_mod((idx + k + 1) as nat, n as nat);
                            } else {
                                vstd::arithmetic::div_mod::lemma_mod_sub_multiples_vanish(idx + k + 1, nn);
                                vstd::arithmetic::div_mod::lemma_small_mod((idx + k + 1 - nn) as nat, n as nat);
                            }
                        }
                        assert(old_buckets[(idx + (k + 1)) % nn] == Some(w[k + 1]));
                    } else {
                        assert((nx + k) % nn == idx as int) by {
                            if idx + 1 == n {
                                vstd::arithmetic::div_mod::lemma_small_mod(k as nat, n as nat);
                            } else {
                                assert(nx + k == idx + nn);
                                vstd::arithmetic::div_mod::lemma_mod_add_multiples_vanish(idx as int, nn);
                                vstd::arithmetic::div_mod::lemma_small_mod(idx as nat, n as nat);
                            }
                        }
                    }
                }
            }
        }
    }

    /// Empties the window.
    pub fn clear(&mut self)
        requires
            old(self).wf(),
        ensures
            final(self).wf(),
            final(self).capacity() == old(self).capacity(),
            final(self).outcomes().len() == 0,
    {
        let n = self.buckets.len();
        let mut i: usize = 0;
        while i < n
            invariant
                i <= n,
                n == self.buckets@.len(),
                n >= 1,
                forall|k: int| 0 <= k < i ==> self.buckets@[k] is None,
            decreases n - i,
        {
            self.buckets.set(i, None);
            i = i + 1;
        }
        self.next_index = 0;
        self.len = 0;
        self.success_count = 0;
        self.failure_count = 0;
        self.timeout_count = 0;
        self.window = Ghost(Seq::empty());
    }
}

/// Recording outcomes one by one keeps exactly the last `capacity` of them:
/// from an empty window, the window holds the last `n` outcomes recorded.
pub proof fn rolling_window_keeps_last_n(n: nat, s: Seq<RequestOutcome>)
    requires
        n >= 1,
    ensures
        window_after(Seq::empty(), n, s) == last_n(s, n),
    decreases s.len(),
{
    if s.len() > 0 {
        let p = s.drop_last();
        rolling_window_keeps_last_n(n, p);
        let w = last_n(p, n);
        if p.len() < n {
            assert(window_push(w, n, s.last()) =~= last_n(s, n));
        } else {
            assert(w.len() == n);
            assert(window_push(w, n, s.last()) =~= last_n(s, n));
        }
    }
}

/// The tunables of a circuit breaker.
#[derive(Debug, Clone, Copy)]
pub struct CircuitBreakerConfig {
    /// Failure rate above which a closed circuit opens, in hundredths of a
    /// percent.
    pub failure_rate_threshold: u64,
    /// Outcomes needed in the window before the circuit may open.
    pub minimum_requests: usize,
    /// Outcomes the window keeps.
    pub rolling_window_size: usize,
    /// How long an open circuit refuses calls, in nanoseconds.
    pub reset_timeout: u64,
}

impl Default for CircuitBreakerConfig {
    fn default() -> (r: Self)
        ensures
            r.failure_rate_threshold == 5000,
            r.minimum_requests == 20,
            r.rolling_window_size == 100,
            r.reset_timeout == 30_000_000_000,
    {
        CircuitBreakerConfig {
            failure_rate_threshold: 5000,
            minimum_requests: 20,
            rolling_window_size: 100,
            reset_timeout: 30_000_000_000,
        }
    }
}

/// What a caller was let through as.
#[derive(Debug, Clone, Copy, PartialEq, Eq, Structural)]
pub enum ExecutionPermit {
    Closed,
    HalfOpenProbe,
}

/// `now - t`, or 0 when `t` is later.
pub open spec fn since_ns(now: u64, t: u64) -> u64 {
    if now >= t {
        (now - t) as u64
    } else {
        0
    }
}

/// True when the outcomes of `w` make a closed circuit open: enough of
/// them, and a failure rate (failures and timeouts over all) above the
/// threshold.
pub open spec fn should_trip(w: Seq<RequestOutcome>, cfg: CircuitBreakerConfig) -> bool {
    let errors = count_of(w, RequestOutcome::Failure) + count_of(w, RequestOutcome::Timeout);
    w.len() >= cfg.minimum_requests && w.len() > 0 && errors * 10000 > cfg.failure_rate_threshold * w.len()
}

/// Every outcome is a success, a failure or a timeout.
proof fn lemma_counts_sum(w: Seq<RequestOutcome>)
    ensures
        count_of(w, RequestOutcome::Success) + count_of(w, RequestOutcome::Failure)
            + count_of(w, RequestOutcome::Timeout) == w.len(),
    decreases w.len(),
{
    if w.len() > 0 {
        lemma_counts_sum(w.drop_last());
    }
}

/// A closed circuit trips exactly when its window holds at least the
/// minimum number of outcomes and the share of them that did not succeed
/// (failures and timeouts alike, over all outcomes) is above the threshold,
/// in hundredths of a percent.
pub proof fn trip_counts_every_unsuccessful_outcome(w: Seq<RequestOutcome>, cfg: CircuitBreakerConfig)
    ensures
        should_trip(w, cfg) <==> (w.len() >= cfg.minimum_requests && w.len() > 0
            && (w.len() - count_of(w, RequestOutcome::Success)) * 10000 > cfg.failure_rate_threshold * w.len()),
{
    lemma_counts_sum(w);
}

/// A window in which at most the threshold's share of outcomes did not
/// succeed never trips the circuit, however many of them timed out.
pub proof fn low_error_share_keeps_closed(w: Seq<RequestOutcome>, cfg: CircuitBreakerConfig)
    requires
        (w.len() - count_of(w, RequestOutcome::Success)) * 10000 <= cfg.failure_rate_threshold * w.len(),
    ensures
        !should_trip(w, cfg),
{
    lemma_counts_sum(w);
}

/// The outcome a call's result counts as (none for refused calls).
pub open spec fn outcome_of(result: Result<(), CircuitBreakerError>) -> Option<RequestOutcome> {
    match result {
        Ok(()) => Some(RequestOutcome::Success),
        Err(CircuitBreakerError::Timeout) => Some(RequestOutcome::Timeout),
        Err(CircuitBreakerError::Downstream(_)) => Some(RequestOutcome::Failure),
        Err(_) => None,
    }
}

/// A named circuit breaker.
pub struct CircuitBreaker {
    name: String,
    config: CircuitBreakerConfig,
    state: CircuitState,
    opened_at: Option<u64>,
    half_open_probe_in_flight: bool,
    metrics: RollingWindowMetrics,
}

/// A circuit breaker as plain values.
pub struct BreakerView {
    pub name: Seq<char>,
    pub config: CircuitBreakerConfig,
    pub state: CircuitState,
    pub opened_at: Option<u64>,
    pub probe_in_flight: bool,
    pub outcomes: Seq<RequestOutcome>,
    pub capacity: nat,
}

impl View for CircuitBreaker {
    type V = BreakerView;

    closed spec fn view(&self) -> BreakerView {
        BreakerView {
            name: self.name@,
            config: self.config,
            state: self.state,
            opened_at: self.opened_at,
            probe_in_flight: self.half_open_probe_in_flight,
            outcomes: self.metrics.outcomes(),
            capacity: self.metrics.capacity(),
        }
    }
}

impl CircuitBreaker {
    /// The internal consistency of the breaker.
    pub closed spec fn wf(&self) -> bool {
        self.metrics.wf()
    }

    /// A closed breaker with the default tunables.
    pub fn new(name: &str) -> (r: CircuitBreaker)
        ensures
            r.wf(),
            r@.name == name@,
            r@.config.failure_rate_threshold == 5000 && r@.config.minimum_requests == 20
                && r@.config.rolling_window_size == 100 && r@.config.reset_timeout == 30_000_000_000,
            r@.state == CircuitState::Closed,
            r@.opened_at is None,
            !r@.probe_in_flight,
            r@.outcomes.len() == 0,
            r@.capacity == 100,
    {
        CircuitBreaker::with_config(name, CircuitBreakerConfig::default())
    }

    /// A closed breaker with the given tunables; its window keeps
    /// `rolling_window_size` outcomes (at least one).
    pub fn with_config(name: &str, config: CircuitBreakerConfig) -> (r: CircuitBreaker)
        ensures
            r.wf(),
            r@.name == name@,
            r@.config == config,
            r@.state == CircuitState::Closed,
            r@.opened_at is None,
            !r@.probe_in_flight,
            r@.outcomes.len() == 0,
            r@.capacity == if config.rolling_window_size == 0 { 1 } else { config.rolling_window_size },
    {
        CircuitBreaker {
            name: name.to_string(),
            config,
            state: CircuitState::Closed,
            opened_at: None,
            half_open_probe_in_flight: false,
            metrics: RollingWindowMetrics::new(config.rolling_window_size),
        }
    }

    /// The breaker's name.
    pub fn name(&self) -> (r: &str)
        ensures
            r@ == self@.name,
    {
        self.name.as_str()
    }

    /// The breaker's tunables.
    pub fn config(&self) -> (r: CircuitBreakerConfig)
        ensures
            r == self@.config,
    {
        self.config
    }

    /// The circuit's state.
    pub fn state(&self) -> (r: CircuitState)
        ensures
            r == self@.state,
    {
        self.state
    }

    /// The counts of the outcomes in the window.
    pub fn metrics(&self) -> (r: CircuitMetricsSnapshot)
        requires
            self.wf(),
        ensures
            r.total_requests == self@.outcomes.len(),
            r.success_count == count_of(self@.outcomes, RequestOutcome::Success),
            r.failure_count == count_of(self@.outcomes, RequestOutcome::Failure),
            r.timeout_count == count_of(self@.outcomes, RequestOutcome::Timeout),
    {
        self.metrics.snapshot()
    }

    /// Asks to make a call at `now`.  An open circuit whose reset timeout
    /// has passed turns half-open first.  A closed circuit lets every call
    /// through; an open one none; a half-open one a single probe at a time.
    pub fn try_acquire_permission_at(&mut self, now: u64) -> (r: Result<ExecutionPermit, CircuitBreakerError>)
        requires
            old(self).wf(),
        ensures
            final(self).wf(),
            final(self)@.name == old(self)@.name,
            final(self)@.config == old(self)@.config,
            final(self)@.outcomes == old(self)@.outcomes,
            final(self)@.capacity == old(self)@.capacity,
            ({
                let reopen = old(self)@.state == CircuitState::Open && (old(self)@.opened_at matches Some(t)
                    && since_ns(now, t) >= old(self)@.config.reset_timeout);
                let state = if reopen { CircuitState::HalfOpen } else { old(self)@.state };
                let probe = if reopen { false } else { old(self)@.probe_in_flight };
                let opened = if reopen { None } else { old(self)@.opened_at };
                match state {
                    CircuitState::Closed => r == Ok::<ExecutionPermit, CircuitBreakerError>(ExecutionPermit::Closed)
                        && final(self)@.state == state && final(self)@.probe_in_flight == probe
                        && final(self)@.opened_at == opened,
                    CircuitState::Open => r == Err::<ExecutionPermit, CircuitBreakerError>(CircuitBreakerError::Open)
                        && final(self)@.state == state && final(self)@.probe_in_flight == probe
                        && final(self)@.opened_at == opened,
                    CircuitState::HalfOpen => if probe {
                        r == Err::<ExecutionPermit, CircuitBreakerError>(CircuitBreakerError::HalfOpenProbeInFlight)
                            && final(self)@.state == state && final(self)@.probe_in_flight
                            && final(self)@.opened_at == opened
                    } else {
                        r == Ok::<ExecutionPermit, CircuitBreakerError>(ExecutionPermit::HalfOpenProbe)
                            && final(self)@.state == state && final(self)@.probe_in_flight
                            && final(self)@.opened_at == opened
                    },
                }
            }),
    {
        if self.state == CircuitState::Open {
            match self.opened_at {
                Some(t) => {
                    let el = if now >= t { now - t } else { 0 };
                    if el >= self.config.reset_timeout {
                        self.state = CircuitState::HalfOpen;
                        self.half_open_probe_in_flight = false;
                        self.opened_at = None;
                    }
                },
                None => {},
            }
        }
        match self.state {
            CircuitState::Closed => Ok(ExecutionPermit::Closed),
            CircuitState::Open => Err(CircuitBreakerError::Open),
            CircuitState::HalfOpen => {
                if self.half_open_probe_in_flight {
                    Err(CircuitBreakerError::HalfOpenProbeInFlight)
                } else {
                    self.half_open_probe_in_flight = true;
                    Ok(ExecutionPermit::HalfOpenProbe)
                }
            },
        }
    }

    /// Records how a call let through as `permit` ended, at `now`.  Refused
    /// calls change nothing.  Otherwise the outcome joins the window; then a
    /// closed circuit opens when the window trips it, and a probe closes the
    /// circuit (emptying the window) on success and reopens it otherwise.
    pub fn record_result_at(&mut self, now: u64, permit: ExecutionPermit, result: Result<(), CircuitBreakerError>)
        requires
            old(self).wf(),
        ensures
            final(self).wf(),
            final(self)@.name == old(self)@.name,
            final(self)@.config == old(self)@.config,
            final(self)@.capacity == old(self)@.capacity,
            match outcome_of(result) {
                None => final(self)@ == old(self)@,
                Some(o) => {
                    let w = window_push(old(self)@.outcomes, old(self)@.capacity, o);
                    match permit {
                        ExecutionPermit::Closed => final(self)@.outcomes == w && if should_trip(w, old(self)@.config) {
                            final(self)@.state == CircuitState::Open && final(self)@.opened_at == Some(now)
                                && !final(self)@.probe_in_flight
                        } else {
                            final(self)@.state == old(self)@.state && final(self)@.opened_at == old(self)@.opened_at
                                && final(self)@.probe_in_flight == old(self)@.probe_in_flight
                        },
                        ExecutionPermit::HalfOpenProbe => if o == RequestOutcome::Success {
                            final(self)@.state == CircuitState::Closed && final(self)@.opened_at is None
                                && !final(self)@.probe_in_flight && final(self)@.outcomes.len() == 0
                        } else {
                            final(self)@.state == CircuitState::Open && final(self)@.opened_at == Some(now)
                                && !final(self)@.probe_in_flight && final(self)@.outcomes == w
                        },
                    }
                },
            },
    {
        let outcome = match result {
            Ok(()) => RequestOutcome::Success,
            Err(CircuitBreakerError::Timeout) => RequestOutcome::Timeout,
            Err(CircuitBreakerError::Downstream(_)) => RequestOutcome::Failure,
            Err(_) => {
                return;
            },
        };
        self.metrics.record(outcome);
        let snap = self.metrics.snapshot();
        match permit {
            ExecutionPermit::Closed => {
                let errors = snap.failure_count as u128 + snap.timeout_count as u128;
                let total = snap.total_requests as u128;
                let thr = self.config.failure_rate_threshold as u128;
                proof {
                    assert(total <= 0xffff_ffff_ffff_ffffu128);
                    assert(thr * total <= 0xffff_ffff_ffff_ffffu128 * 0xffff_ffff_ffff_ffffu128) by (nonlinear_arith)
                        requires
                            thr <= 0xffff_ffff_ffff_ffffu128,
                            total <= 0xffff_ffff_ffff_ffffu128,
                    ;
                }
                if snap.total_requests >= self.config.minimum_requests && snap.total_requests > 0
                    && errors * 10000 > thr * total {
                    self.state = CircuitState::Open;
                    self.opened_at = Some(now);
                    self.half_open_probe_in_flight = false;
                }
            },
            ExecutionPermit::HalfOpenProbe => {
                if outcome == RequestOutcome::Success {
                    self.state = CircuitState::Closed;
                    self.opened_at = None;
                    self.half_open_probe_in_flight = false;
                    self.metrics.clear();
                } else {
                    self.state = CircuitState::Open;
                    self.opened_at = Some(now);
                    self.half_open_probe_in_flight = false;
                }
            },
        }
    }
}

} // verus!
