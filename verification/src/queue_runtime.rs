//! Worker-side bookkeeping of the queue server: per-queue concurrency
//! permits, heartbeats of jobs being processed, and recent completions for
//! throughput.
//!
//! Times are microseconds of a monotonic clock.

use vstd::prelude::*;
use std::collections::HashMap;
use std::collections::VecDeque;
use crate::queue::{Queue, count_in_queue, count_keys_in_queue};
use vstd::std_specs::iter::IteratorSpec;
use crate::text::str_eq;

verus! {

broadcast use vstd::std_specs::hash::group_hash_axioms;

/// Tunables of the worker pool.
pub struct WorkerPoolConfig {
    /// Jobs of one queue processed at once, unless set otherwise.
    pub default_concurrency: usize,
    /// How often heartbeats are checked, in microseconds.
    pub heartbeat_interval: u64,
    /// How long a job may go without a heartbeat, in microseconds.
    pub heartbeat_timeout: u64,
}

impl Default for WorkerPoolConfig {
    fn default() -> (r: Self)
        ensures
            r.default_concurrency == 1,
            r.heartbeat_interval == 30_000_000,
            r.heartbeat_timeout == 60_000_000,
    {
        WorkerPoolConfig {
            default_concurrency: 1,
            heartbeat_interval: 30_000_000,
            heartbeat_timeout: 60_000_000,
        }
    }
}

/// A counting semaphore of one queue; `generation` tells it apart from the
/// semaphores it replaced.
pub struct Semaphore {
    pub queue: String,
    pub generation: u64,
    pub available: usize,
}

/// A job a worker holds, with the permit it holds it under.
pub struct ActiveJob {
    pub queue: String,
    pub last_heartbeat: u64,
    pub permit: u64,
}

/// A semaphore as plain values: queue, generation, free permits.
pub type SemView = (Seq<char>, u64, usize);

/// An active job as plain values: queue, last heartbeat, permit generation.
pub type ActiveView = (Seq<char>, u64, u64);

/// The bookkeeping.
pub struct QueueRuntime {
    config: WorkerPoolConfig,
    semaphores: Vec<Semaphore>,
    next_generation: u64,
    active_jobs: HashMap<u128, ActiveJob>,
    completions: VecDeque<(u64, String)>,
}

/// The bookkeeping as plain values.
pub struct RuntimeView {
    pub default_concurrency: usize,
    pub heartbeat_interval: u64,
    pub heartbeat_timeout: u64,
    pub semaphores: Seq<SemView>,
    pub next_generation: u64,
    pub active: Map<u128, ActiveView>,
    pub completions: Seq<(u64, Seq<char>)>,
}

pub open spec fn sem_views(s: Seq<Semaphore>) -> Seq<SemView> {
    s.map_values(|x: Semaphore| (x.queue@, x.generation, x.available))
}

pub open spec fn active_views(m: Map<u128, ActiveJob>) -> Map<u128, ActiveView> {
    m.map_values(|a: ActiveJob| (a.queue@, a.last_heartbeat, a.permit))
}

pub open spec fn completion_views(s: Seq<(u64, String)>) -> Seq<(u64, Seq<char>)> {
    s.map_values(|c: (u64, String)| (c.0, c.1@))
}

impl View for QueueRuntime {
    type V = RuntimeView;

    closed spec fn view(&self) -> RuntimeView {
        RuntimeView {
            default_concurrency: self.config.default_concurrency,
            heartbeat_interval: self.config.heartbeat_interval,
            heartbeat_timeout: self.config.heartbeat_timeout,
            semaphores: sem_views(self.semaphores@),
            next_generation: self.next_generation,
            active: active_views(self.active_jobs@),
            completions: completion_views(self.completions@),
        }
    }
}

/// The index of the semaphore of `queue`, if there is one.
pub open spec fn sem_index(s: Seq<SemView>, queue: Seq<char>) -> Option<int> {
    if exists|i: int| 0 <= i < s.len() && s[i].0 == queue {
        Some(choose|i: int| 0 <= i < s.len() && s[i].0 == queue)
    } else {
        None
    }
}

/// True when no two semaphores serve one queue.
pub open spec fn sems_wf(s: Seq<SemView>, next: u64) -> bool {
    forall|i: int, j: int| 0 <= i < j < s.len() ==> (#[trigger] s[i]).0 != (#[trigger] s[j]).0
}

/// `s` with the free permits of the semaphore of generation `g` (if it is
/// still current) raised by one.
pub open spec fn released(s: Seq<SemView>, g: u64) -> Seq<SemView> {
    s.map_values(|x: SemView| if x.1 == g && x.2 < usize::MAX { (x.0, x.1, (x.2 + 1) as usize) } else { x })
}

/// The generation handed out after `g` (it stays at the largest value).
pub open spec fn next_gen(g: u64) -> u64 {
    if g == u64::MAX {
        g
    } else {
        (g + 1) as u64
    }
}

/// `now - t`, or 0 when `t` is later than `now`.
pub open spec fn elapsed(now: u64, t: u64) -> u64 {
    if now >= t {
        (now - t) as u64
    } else {
        0
    }
}

/// `now - t`, or 0 when `t` is later than `now` (a monotonic clock's
/// saturating `duration_since`).
pub fn elapsed_since(now: u64, t: u64) -> (r: u64)
    ensures
        r == elapsed(now, t),
{
    if now >= t {
        now - t
    } else {
        0
    }
}

/// One second in microseconds: the window of the throughput figure.
pub const THROUGHPUT_WINDOW: u64 = 1_000_000;

/// The completions left after dropping, from the oldest, those more than a
/// second old at `now`.
pub open spec fn pruned(c: Seq<(u64, Seq<char>)>, now: u64) -> Seq<(u64, Seq<char>)>
    decreases c.len(),
{
    if c.len() > 0 && elapsed(now, c[0].0) > THROUGHPUT_WINDOW {
        pruned(c.drop_first(), now)
    } else {
        c
    }
}

/// The outcome of trying for a permit of queue `q`: the semaphores after,
/// the next generation after, and the permit's generation if one was had.
/// A queue without a semaphore first gets one of the default size.
pub open spec fn acquired(s: Seq<SemView>, next: u64, default: usize, q: Seq<char>) -> (Seq<SemView>, u64, Option<u64>) {
    match sem_index(s, q) {
        Some(i) => if s[i].2 > 0 {
            (s.update(i, (q, s[i].1, (s[i].2 - 1) as usize)), next, Some(s[i].1))
        } else {
            (s, next, None)
        },
        None => if default > 0 {
            (s.push((q, next, (default - 1) as usize)), next_gen(next), Some(next))
        } else {
            (s.push((q, next, 0usize)), next_gen(next), None)
        },
    }
}

impl QueueRuntime {
    /// The well-formedness of the bookkeeping.
    pub open spec fn wf(&self) -> bool {
        sems_wf(self@.semaphores, self@.next_generation)
    }

    /// Fresh bookkeeping.
    pub fn new(config: WorkerPoolConfig) -> (r: QueueRuntime)
        ensures
            r.wf(),
            r@.default_concurrency == config.default_concurrency,
            r@.heartbeat_interval == config.heartbeat_interval,
            r@.heartbeat_timeout == config.heartbeat_timeout,
            r@.semaphores.len() == 0,
            r@.active.is_empty(),
            r@.completions.len() == 0,
    {
        let r = QueueRuntime {
            config,
            semaphores: Vec::new(),
            next_generation: 0,
            active_jobs: HashMap::new(),
            completions: VecDeque::new(),
        };
        assert(sem_views(r.semaphores@) =~= Seq::empty());
        assert(active_views(r.active_jobs@) =~= Map::empty());
        assert(completion_views(r.completions@) =~= Seq::empty());
        r
    }

    fn find_semaphore(&self, queue: &str) -> (r: Option<usize>)
        requires
            self.wf(),
        ensures
            r matches Some(i) ==> i < self@.semaphores.len() && self@.semaphores[i as int].0 == queue@,
            r is None ==> forall|i: int|
                0 <= i < self@.semaphores.len() ==> (#[trigger] self@.semaphores[i]).0 != queue@,
    {
        let mut i: usize = 0;
        while i < self.semaphores.len()
            invariant
                i <= self.semaphores@.len(),
                forall|k: int| 0 <= k < i ==> (#[trigger] self@.semaphores[k]).0 != queue@,
            decreases self.semaphores@.len() - i,
        {
            if str_eq(self.semaphores[i].queue.as_str(), queue) {
                return Some(i);
            }
            i = i + 1;
        }
        None
    }

    /// Gives queue `queue` a new semaphore of `concurrency` permits (at
    /// least one); permits held under the old one no longer count.
    pub fn set_concurrency(&mut self, queue: &str, concurrency: usize)
        requires
            old(self).wf(),
        ensures
            final(self).wf(),
            final(self)@.next_generation == next_gen(old(self)@.next_generation),
            final(self)@.active == old(self)@.active,
            final(self)@.completions == old(self)@.completions,
            final(self)@.default_concurrency == old(self)@.default_concurrency,
            final(self)@.heartbeat_interval == old(self)@.heartbeat_interval,
            final(self)@.heartbeat_timeout == old(self)@.heartbeat_timeout,
            ({
                let sem = (queue@, old(self)@.next_generation, if concurrency == 0 { 1usize } else { concurrency });
                match sem_index(old(self)@.semaphores, queue@) {
                    Some(i) => final(self)@.semaphores == old(self)@.semaphores.update(i, sem),
                    None => final(self)@.semaphores == old(self)@.semaphores.push(sem),
                }
            }),
    {
        let limit: usize = if concurrency == 0 { 1 } else { concurrency };
        let g = self.next_generation;
        self.next_generation = g.saturating_add(1);
        let ghost old_s = old(self)@.semaphores;
        assert(self@.semaphores == old_s);
        match self.find_semaphore(queue) {
            Some(i) => {
                self.semaphores.set(i, Semaphore { queue: queue.to_string(), generation: g, available: limit });
                proof {
                    assert(sem_index(old_s, queue@) is Some);
                    let j = sem_index(old_s, queue@)->0;
                    assert(j == i as int) by {
                        if j != i as int {
                            if j < i { assert(old_s[j].0 != old_s[i as int].0); }
                            else { assert(old_s[i as int].0 != old_s[j].0); }
                        }
                    }
                    assert(sem_views(self.semaphores@) =~= old_s.update(i as int, (queue@, g, limit)));
                }
            },
            None => {
                assert(sem_index(old_s, queue@) is None);
                self.semaphores.push(Semaphore { queue: queue.to_string(), generation: g, available: limit });
                proof {
                    assert(sem_views(self.semaphores@) =~= old_s.push((queue@, g, limit)));
                }
            },
        }
    }
}

impl QueueRuntime {
    /// Tries to take a permit of queue `queue`; gives its generation.
    pub fn acquire_permit(&mut self, queue: &str) -> (r: Option<u64>)
        requires
            old(self).wf(),
        ensures
            final(self).wf(),
            ({
                let a = acquired(
                    old(self)@.semaphores,
                    old(self)@.next_generation,
                    old(self)@.default_concurrency,
                    queue@,
                );
                final(self)@.semaphores == a.0 && final(self)@.next_generation == a.1 && r == a.2
            }),
            final(self)@.active == old(self)@.active,
            final(self)@.completions == old(self)@.completions,
            final(self)@.default_concurrency == old(self)@.default_concurrency,
            final(self)@.heartbeat_interval == old(self)@.heartbeat_interval,
            final(self)@.heartbeat_timeout == old(self)@.heartbeat_timeout,
    {
        let ghost old_s = old(self)@.semaphores;
        match self.find_semaphore(queue) {
            Some(i) => {
                proof {
                    let j = sem_index(old_s, queue@)->0;
                    assert(j == i as int) by {
                        if j != i as int {
                            if j < i { assert(old_s[j].0 != old_s[i as int].0); }
                            else { assert(old_s[i as int].0 != old_s[j].0); }
                        }
                    }
                }
                let avail = self.semaphores[i].available;
                if avail > 0 {
                    let g = self.semaphores[i].generation;
                    let q = self.semaphores[i].queue.clone();
                    self.semaphores.set(i, Semaphore { queue: q, generation: g, available: avail - 1 });
                    assert(sem_views(self.semaphores@) =~= old_s.update(i as int, (queue@, g, (avail - 1) as usize)));
                    Some(g)
                } else {
                    None
                }
            },
            None => {
                assert(sem_index(old_s, queue@) is None);
                let g = self.next_generation;
                self.next_generation = g.saturating_add(1);
                let d = self.config.default_concurrency;
                let avail: usize = if d > 0 { d - 1 } else { 0 };
                self.semaphores.push(Semaphore { queue: queue.to_string(), generation: g, available: avail });
                assert(sem_views(self.semaphores@) =~= old_s.push((queue@, g, avail)));
                if d > 0 {
                    Some(g)
                } else {
                    None
                }
            },
        }
    }

    /// Gives back a permit of generation `permit`: the semaphore of that
    /// generation, if it is still in use, gets one more free permit.
    pub fn release_permit(&mut self, permit: u64)
        requires
            old(self).wf(),
        ensures
            final(self).wf(),
            final(self)@ == (RuntimeView { semaphores: released(old(self)@.semaphores, permit), ..old(self)@ }),
    {
        let ghost old_s = old(self)@.semaphores;
        let ghost target = released(old_s, permit);
        let mut i: usize = 0;
        assert(sem_views(self.semaphores@) =~= target.take(0) + old_s.skip(0));
        while i < self.semaphores.len()
            invariant
                i <= self.semaphores@.len(),
                self.semaphores@.len() == old_s.len(),
                target == released(old_s, permit),
                self.config == old(self).config,
                self.next_generation == old(self).next_generation,
                self.active_jobs == old(self).active_jobs,
                self.completions == old(self).completions,
                sem_views(self.semaphores@) == target.take(i as int) + old_s.skip(i as int),
            decreases self.semaphores@.len() - i,
        {
            let g = self.semaphores[i].generation;
            let avail = self.semaphores[i].available;
            let ghost cur = sem_views(self.semaphores@);
            assert(cur[i as int] == old_s[i as int]);
            if g == permit && avail < usize::MAX {
                let q = self.semaphores[i].queue.clone();
                self.semaphores.set(i, Semaphore { queue: q, generation: g, available: avail + 1 });
                assert(target[i as int] == (old_s[i as int].0, g, (avail + 1) as usize));
                assert(sem_views(self.semaphores@) =~= cur.update(i as int, (old_s[i as int].0, g, (avail + 1) as usize)));
                assert(sem_views(self.semaphores@) =~= target.take(i + 1) + old_s.skip(i + 1));
            } else {
                assert(target[i as int] == old_s[i as int]);
                assert(sem_views(self.semaphores@) =~= target.take(i + 1) + old_s.skip(i + 1));
            }
            i = i + 1;
        }
        assert(sem_views(self.semaphores@) =~= released(old_s, permit));
    }

    /// Starts tracking job `id` of `queue`, held under permit `permit`, with
    /// a heartbeat at `now`.  A job tracked already gives back its permit.
    pub fn register_processing(&mut self, queue: &str, id: u128, permit: u64, now: u64)
        requires
            old(self).wf(),
        ensures
            final(self).wf(),
            final(self)@.active == old(self)@.active.insert(id, (queue@, now, permit)),
            final(self)@.semaphores == if old(self)@.active.contains_key(id) {
                released(old(self)@.semaphores, old(self)@.active[id].2)
            } else {
                old(self)@.semaphores
            },
            final(self)@.next_generation == old(self)@.next_generation,
            final(self)@.completions == old(self)@.completions,
            final(self)@.default_concurrency == old(self)@.default_concurrency,
            final(self)@.heartbeat_interval == old(self)@.heartbeat_interval,
            final(self)@.heartbeat_timeout == old(self)@.heartbeat_timeout,
    {
        let prev = self.active_jobs.insert(id, ActiveJob { queue: queue.to_string(), last_heartbeat: now, permit });
        assert(active_views(self.active_jobs@) =~= old(self)@.active.insert(id, (queue@, now, permit)));
        match prev {
            Some(a) => {
                self.release_permit(a.permit);
            },
            None => {},
        }
    }

    /// Records a heartbeat of job `id` at `now`; false when the job is not
    /// tracked.
    pub fn heartbeat(&mut self, id: u128, now: u64) -> (r: bool)
        requires
            old(self).wf(),
        ensures
            final(self).wf(),
            r == old(self)@.active.contains_key(id),
            r ==> final(self)@ == (RuntimeView {
                active: old(self)@.active.insert(id, (old(self)@.active[id].0, now, old(self)@.active[id].2)),
                ..old(self)@
            }),
            !r ==> final(self)@ == old(self)@,
    {
        match self.active_jobs.remove(&id) {
            Some(a) => {
                let ActiveJob { queue, last_heartbeat, permit } = a;
                self.active_jobs.insert(id, ActiveJob { queue, last_heartbeat: now, permit });
                assert(active_views(self.active_jobs@) =~= old(self)@.active.insert(id, (old(self)@.active[id].0, now, old(self)@.active[id].2)));
                true
            },
            None => {
                assert(self.active_jobs@ =~= old(self).active_jobs@);
                false
            },
        }
    }

    /// Drops completions more than a second old at `now`, oldest first.
    fn prune_completions(&mut self, now: u64)
        requires
            old(self).wf(),
        ensures
            final(self).wf(),
            final(self)@ == (RuntimeView { completions: pruned(old(self)@.completions, now), ..old(self)@ }),
    {
        while self.completions.len() > 0 && elapsed_since(now, self.completions[0].0) > THROUGHPUT_WINDOW
            invariant
                self.wf(),
                pruned(self@.completions, now) == pruned(old(self)@.completions, now),
                self@ == (RuntimeView { completions: self@.completions, ..old(self)@ }),
            decreases self.completions@.len(),
        {
            let ghost before = self@.completions;
            let _ = self.completions.pop_front();
            assert(completion_views(self.completions@) =~= before.drop_first());
        }
    }

    /// Stops tracking job `id`, giving back its permit; when
    /// `record_completion` holds, counts it as completed at `now`.
    pub fn finish_job(&mut self, id: u128, record_completion: bool, now: u64)
        requires
            old(self).wf(),
        ensures
            final(self).wf(),
            final(self)@.active == old(self)@.active.remove(id),
            final(self)@.semaphores == if old(self)@.active.contains_key(id) {
                released(old(self)@.semaphores, old(self)@.active[id].2)
            } else {
                old(self)@.semaphores
            },
            final(self)@.completions == if record_completion && old(self)@.active.contains_key(id) {
                pruned(old(self)@.completions.push((now, old(self)@.active[id].0)), now)
            } else {
                old(self)@.completions
            },
            final(self)@.next_generation == old(self)@.next_generation,
            final(self)@.default_concurrency == old(self)@.default_concurrency,
            final(self)@.heartbeat_interval == old(self)@.heartbeat_interval,
            final(self)@.heartbeat_timeout == old(self)@.heartbeat_timeout,
    {
        match self.active_jobs.remove(&id) {
            Some(a) => {
                assert(active_views(self.active_jobs@) =~= old(self)@.active.remove(id));
                self.release_permit(a.permit);
                if record_completion {
                    let ghost before = self@.completions;
                    self.completions.push_back((now, a.queue));
                    assert(completion_views(self.completions@) =~= before.push((now, old(self)@.active[id].0)));
                    self.prune_completions(now);
                }
            },
            None => {
                assert(self.active_jobs@ =~= old(self).active_jobs@);
                assert(old(self)@.active.remove(id) =~= old(self)@.active);
            },
        }
    }
}

/// The number of completions of queue `name` at most a second old at `now`.
pub open spec fn count_recent(c: Seq<(u64, Seq<char>)>, name: Seq<char>, now: u64) -> nat
    decreases c.len(),
{
    if c.len() == 0 {
        0
    } else {
        count_recent(c.drop_last(), name, now) + if c.last().1 == name && elapsed(now, c.last().0)
            <= THROUGHPUT_WINDOW {
            1nat
        } else {
            0nat
        }
    }
}

/// Per-queue figures.
pub struct QueueStatsView {
    pub queue: String,
    pub pending: usize,
    pub processing: usize,
    pub failed: usize,
    /// Jobs of the queue completed within the last second.
    pub throughput_per_sec: u64,
}

impl QueueRuntime {
    /// The jobs whose last heartbeat is more than the timeout old at `now`.
    pub fn stale_jobs(&self, now: u64) -> (r: Vec<u128>)
        requires
            self.wf(),
        ensures
            r@.no_duplicates(),
            forall|id: u128|
                r@.contains(id) <==> (self@.active.contains_key(id) && elapsed(now, self@.active[id].1)
                    > self@.heartbeat_timeout),
    {
        let mut out: Vec<u128> = Vec::new();
        let ghost ks = vstd::std_specs::hash::spec_keys_iter(&self.active_jobs).remaining();
        for k in it: self.active_jobs.keys()
            invariant
                it.seq() == ks,
                ks.no_duplicates(),
                ks.unref().to_set() == self.active_jobs@.dom(),
                out@.no_duplicates(),
                forall|id: u128| #[trigger] out@.contains(id) <==> (exists|i: int| 0 <= i < it.index() && *ks[i] == id
                    && self@.active.contains_key(id) && elapsed(now, self@.active[id].1) > self@.heartbeat_timeout),
        {
            let got = self.active_jobs.get(k);
            proof {
                assert(k == it.seq()[it.index()]);
                assert(ks.unref()[it.index()] == *k);
                assert(ks.unref().to_set().contains(*k));
            }
            let a = got.unwrap();
            let el = elapsed_since(now, a.last_heartbeat);
            let ghost before = out@;
            if el > self.config.heartbeat_timeout {
                out.push(*k);
                proof {
                    assert forall|j: int| 0 <= j < before.len() implies before[j] != *k by {
                        let id = before[j];
                        assert(before.contains(id));
                        let i = choose|i: int| 0 <= i < it.index() && *ks[i] == id && self@.active.contains_key(id) && elapsed(now, self@.active[id].1) > self@.heartbeat_timeout;
                        assert(ks[i] != ks[it.index()]);
                    }
                    assert forall|id: u128| #[trigger] out@.contains(id) <==> (exists|i: int| 0 <= i < it.index() + 1 && *ks[i] == id
                        && self@.active.contains_key(id) && elapsed(now, self@.active[id].1) > self@.heartbeat_timeout) by {
                        if out@.contains(id) && id != *k {
                            assert(before.contains(id));
                        }
                        if id == *k {
                            assert(out@[before.len() as int] == id);
                        }
                        if (exists|i: int| 0 <= i < it.index() + 1 && *ks[i] == id
                            && self@.active.contains_key(id) && elapsed(now, self@.active[id].1) > self@.heartbeat_timeout) && id != *k {
                            assert(before.contains(id));
                            let j = choose|j: int| 0 <= j < before.len() && before[j] == id;
                            assert(out@[j] == id);
                        }
                    }
                }
            } else {
                proof {
                    assert forall|id: u128| #[trigger] out@.contains(id) <==> (exists|i: int| 0 <= i < it.index() + 1 && *ks[i] == id
                        && self@.active.contains_key(id) && elapsed(now, self@.active[id].1) > self@.heartbeat_timeout) by {
                        if exists|i: int| 0 <= i < it.index() + 1 && *ks[i] == id
                            && self@.active.contains_key(id) && elapsed(now, self@.active[id].1) > self@.heartbeat_timeout {
                            let i = choose|i: int| 0 <= i < it.index() + 1 && *ks[i] == id
                                && self@.active.contains_key(id) && elapsed(now, self@.active[id].1) > self@.heartbeat_timeout;
                            if i == it.index() {
                                assert(false);
                            }
                        }
                    }
                }
            }
        }
        proof {
            assert forall|id: u128| #[trigger] out@.contains(id) <==> (self@.active.contains_key(id) && elapsed(now, self@.active[id].1)
                    > self@.heartbeat_timeout) by {
                if self@.active.contains_key(id) {
                    assert(ks.unref().to_set().contains(id));
                    let i = choose|i: int| 0 <= i < ks.unref().len() && ks.unref()[i] == id;
                    assert(*ks[i] == id);
                }
            }
        }
        out
    }
}

impl QueueRuntime {
    /// The figures of queue `name` at `now`; old completions are dropped
    /// first.
    pub fn stats_for_queue(&mut self, queue: &Queue, name: &str, now: u64) -> (r: QueueStatsView)
        requires
            old(self).wf(),
        ensures
            final(self).wf(),
            final(self)@ == (RuntimeView { completions: pruned(old(self)@.completions, now), ..old(self)@ }),
            r.queue@ == name@,
            r.pending == count_in_queue(queue@.pending, name@),
            r.failed == count_in_queue(queue@.dead_letter, name@),
            exists|ks: Seq<u128>|
                ks.no_duplicates() && ks.to_set() == queue@.processing.dom() && r.processing
                    == count_keys_in_queue(ks, queue@.processing, name@),
            r.throughput_per_sec == count_recent(pruned(old(self)@.completions, now), name@, now),
    {
        self.prune_completions(now);
        let ghost c = self@.completions;
        let mut n: u64 = 0;
        let mut i: usize = 0;
        while i < self.completions.len()
            invariant
                i <= c.len(),
                c == self@.completions,
                n <= i,
                n == count_recent(c.take(i as int), name@, now),
            decreases c.len() - i,
        {
            proof {
                assert(c.take(i + 1).drop_last() =~= c.take(i as int));
            }
            let ts = self.completions[i].0;
            if str_eq(self.completions[i].1.as_str(), name) && elapsed_since(now, ts) <= THROUGHPUT_WINDOW {
                n = n + 1;
            }
            i = i + 1;
        }
        assert(c.take(c.len() as int) =~= c);
        QueueStatsView {
            queue: name.to_string(),
            pending: queue.count_pending(name),
            processing: queue.count_processing(name),
            failed: queue.count_dead_letter(name),
            throughput_per_sec: n,
        }
    }
}

} // verus!
