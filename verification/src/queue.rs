//! The in-memory job queue: pending jobs in arrival order, jobs being
//! processed, delayed jobs waiting for their time, completed and
//! dead-lettered jobs, and the last failure reason of each job.
//!
//! Job ids are the 128-bit values of UUIDs; times are microseconds since
//! the Unix epoch.

use vstd::prelude::*;
use std::collections::HashMap;
use std::collections::VecDeque;
use vstd::multiset::Multiset;
use vstd::std_specs::iter::IteratorSpec;

verus! {

broadcast use vstd::std_specs::hash::group_hash_axioms;

/// Where a job is in its life.
#[derive(Debug, Clone, Copy, PartialEq, Eq, Structural)]
pub enum JobStatus {
    Pending,
    Processing,
    Completed,
    Failed,
    DeadLetter,
}

/// A unit of work.
#[derive(Debug, Clone)]
pub struct Job {
    pub id: u128,
    pub queue: String,
    pub payload: Vec<u8>,
    pub status: JobStatus,
    pub attempts: u32,
    pub max_attempts: u32,
    pub created_at: i64,
    pub scheduled_at: Option<i64>,
}

/// A job as plain values.
pub struct JobView {
    pub id: u128,
    pub queue: Seq<char>,
    pub payload: Seq<u8>,
    pub status: JobStatus,
    pub attempts: u32,
    pub max_attempts: u32,
    pub created_at: i64,
    pub scheduled_at: Option<i64>,
}

impl View for Job {
    type V = JobView;

    open spec fn view(&self) -> JobView {
        JobView {
            id: self.id,
            queue: self.queue@,
            payload: self.payload@,
            status: self.status,
            attempts: self.attempts,
            max_attempts: self.max_attempts,
            created_at: self.created_at,
            scheduled_at: self.scheduled_at,
        }
    }
}

/// `j` with its status replaced.
pub open spec fn with_status(j: JobView, status: JobStatus) -> JobView {
    JobView { status, ..j }
}

/// The views of a sequence of jobs.
pub open spec fn job_views(s: Seq<Job>) -> Seq<JobView> {
    s.map_values(|j: Job| j@)
}

/// The views of a map of jobs.
pub open spec fn job_map_views(m: Map<u128, Job>) -> Map<u128, JobView> {
    m.map_values(|j: Job| j@)
}

/// The views of a map of strings.
pub open spec fn string_map_views(m: Map<u128, String>) -> Map<u128, Seq<char>> {
    m.map_values(|s: String| s@)
}

/// A fresh random job id.
#[verifier::external_body]
pub(crate) fn fresh_job_id() -> (id: u128) {
    uuid::Uuid::new_v4().as_u128()
}

/// The current time in microseconds since the Unix epoch.
#[verifier::external_body]
pub(crate) fn now_micros() -> (t: i64) {
    chrono::Utc::now().timestamp_micros()
}

impl Job {
    /// A pending job with the given identity and creation time.
    pub fn with_identity(id: u128, queue: &str, payload: Vec<u8>, max_attempts: u32, created_at: i64) -> (r: Job)
        ensures
            r@ == (JobView {
                id,
                queue: queue@,
                payload: payload@,
                status: JobStatus::Pending,
                attempts: 0,
                max_attempts,
                created_at,
                scheduled_at: None,
            }),
    {
        Job {
            id,
            queue: queue.to_string(),
            payload,
            status: JobStatus::Pending,
            attempts: 0,
            max_attempts,
            created_at,
            scheduled_at: None,
        }
    }

    /// A new pending job with a random id, created now.
    pub fn new(queue: &str, payload: Vec<u8>, max_attempts: u32) -> (r: Job)
        ensures
            r.queue@ == queue@,
            r.payload@ == payload@,
            r.status == JobStatus::Pending,
            r.attempts == 0,
            r.max_attempts == max_attempts,
            r.scheduled_at is None,
    {
        let id = fresh_job_id();
        let now = now_micros();
        Job::with_identity(id, queue, payload, max_attempts, now)
    }

    /// A new pending job that is due at `scheduled_at`.
    pub fn scheduled(queue: &str, payload: Vec<u8>, max_attempts: u32, scheduled_at: i64) -> (r: Job)
        ensures
            r.queue@ == queue@,
            r.payload@ == payload@,
            r.status == JobStatus::Pending,
            r.attempts == 0,
            r.max_attempts == max_attempts,
            r.scheduled_at == Some(scheduled_at),
    {
        let mut job = Job::new(queue, payload, max_attempts);
        job.scheduled_at = Some(scheduled_at);
        job
    }

    /// A copy of the job.
    pub fn duplicate(&self) -> (r: Job)
        ensures
            r@ == self@,
    {
        let payload = self.payload.clone();
        assert(payload@ =~= self.payload@);
        Job {
            id: self.id,
            queue: self.queue.clone(),
            payload,
            status: self.status,
            attempts: self.attempts,
            max_attempts: self.max_attempts,
            created_at: self.created_at,
            scheduled_at: self.scheduled_at,
        }
    }
}

/// Errors of queue operations.
#[derive(Debug, PartialEq, Eq)]
pub enum QueueError {
    /// The job is not being processed.
    JobNotProcessing(u128),
}

impl QueueError {
    /// The error's message.
    pub fn message(&self) -> (r: String)
        ensures
            r@ == queue_error_message(*self),
    {
        match self {
            QueueError::JobNotProcessing(id) => {
                let a = crate::text::concat("job ", crate::uuid_text::uuid_string(*id).as_str());
                crate::text::concat(a.as_str(), " not found in processing")
            },
        }
    }
}

/// The message of a queue error.
pub open spec fn queue_error_message(e: QueueError) -> Seq<char> {
    match e {
        QueueError::JobNotProcessing(id) => "job "@ + crate::uuid_text::uuid_text(id)
            + " not found in processing"@,
    }
}

/// True when timer `a` sorts strictly before timer `b`: by time, then id.
pub open spec fn timer_lt(a: (i64, u128), b: (i64, u128)) -> bool {
    a.0 < b.0 || (a.0 == b.0 && a.1 < b.1)
}

/// True when timers are in ascending order.
pub open spec fn timers_sorted(t: Seq<(i64, u128)>) -> bool {
    forall|i: int, j: int| 0 <= i < j < t.len() ==> !timer_lt(#[trigger] t[j], #[trigger] t[i])
}

/// True when every job of `m` is stored under its own id.
pub open spec fn keyed_by_id(m: Map<u128, JobView>) -> bool {
    forall|k: u128| #[trigger] m.contains_key(k) ==> m[k].id == k
}

/// The queue as plain values.
pub struct QueueView {
    pub pending: Seq<JobView>,
    pub processing: Map<u128, JobView>,
    pub scheduled: Map<u128, JobView>,
    pub timers: Seq<(i64, u128)>,
    pub completed: Seq<JobView>,
    pub dead_letter: Seq<JobView>,
    pub failure_reasons: Map<u128, Seq<char>>,
}

/// The job queue.
#[derive(Debug)]
pub struct Queue {
    pub pending: VecDeque<Job>,
    pub processing: HashMap<u128, Job>,
    scheduled: HashMap<u128, Job>,
    timers: VecDeque<(i64, u128)>,
    completed: Vec<Job>,
    dead_letter: Vec<Job>,
    failure_reasons: HashMap<u128, String>,
}

impl View for Queue {
    type V = QueueView;

    closed spec fn view(&self) -> QueueView {
        QueueView {
            pending: job_views(self.pending@),
            processing: job_map_views(self.processing@),
            scheduled: job_map_views(self.scheduled@),
            timers: self.timers@,
            completed: job_views(self.completed@),
            dead_letter: job_views(self.dead_letter@),
            failure_reasons: string_map_views(self.failure_reasons@),
        }
    }
}

/// The state after `job` is enqueued at time `now`: a job due later waits
/// among the scheduled jobs, any other joins the back of the pending line.
pub open spec fn enqueued(old: QueueView, new: QueueView, job: JobView, now: i64) -> bool {
    let j = with_status(job, JobStatus::Pending);
    match job.scheduled_at {
        Some(t) if t > now => {
            &&& new.pending == old.pending
            &&& new.processing == old.processing
            &&& new.scheduled == old.scheduled.insert(job.id, j)
            &&& timer_inserted(old.timers, new.timers, (t, job.id))
            &&& new.completed == old.completed
            &&& new.dead_letter == old.dead_letter
            &&& new.failure_reasons == old.failure_reasons
        },
        _ => new == QueueView { pending: old.pending.push(j), ..old },
    }
}

/// `new` is `old` with `e` inserted after every timer not after it.
pub open spec fn timer_inserted(old: Seq<(i64, u128)>, new: Seq<(i64, u128)>, e: (i64, u128)) -> bool {
    exists|k: int|
        0 <= k <= old.len() && new == old.insert(k, e) && (forall|i: int|
            0 <= i < k ==> !timer_lt(e, #[trigger] old[i])) && (forall|i: int|
            k <= i < old.len() ==> timer_lt(e, #[trigger] old[i]))
}

/// `a + 1`, saturating at the largest `u32`.
pub open spec fn saturating_inc(a: u32) -> u32 {
    if a == u32::MAX {
        a
    } else {
        (a + 1) as u32
    }
}

impl Queue {
    /// The well-formedness of a queue: its timers are in order.
    pub open spec fn wf(&self) -> bool {
        timers_sorted(self@.timers) && keyed_by_id(self@.scheduled)
    }

    /// An empty queue.
    pub fn new() -> (r: Queue)
        ensures
            r.wf(),
            r@.pending.len() == 0,
            r@.processing.is_empty(),
            r@.scheduled.is_empty(),
            r@.timers.len() == 0,
            r@.completed.len() == 0,
            r@.dead_letter.len() == 0,
            r@.failure_reasons.is_empty(),
    {
        let r = Queue {
            pending: VecDeque::new(),
            processing: HashMap::new(),
            scheduled: HashMap::new(),
            timers: VecDeque::new(),
            completed: Vec::new(),
            dead_letter: Vec::new(),
            failure_reasons: HashMap::new(),
        };
        proof {
            assert(job_map_views(r.processing@) =~= Map::empty());
            assert(job_map_views(r.scheduled@) =~= Map::empty());
            assert(string_map_views(r.failure_reasons@) =~= Map::empty());
        }
        r
    }

    /// Inserts a timer at its place in the ordered timer list.
    fn insert_timer(&mut self, e: (i64, u128))
        requires
            old(self).wf(),
        ensures
            final(self).wf(),
            timer_inserted(old(self)@.timers, final(self)@.timers, e),
            final(self).pending == old(self).pending,
            final(self).processing == old(self).processing,
            final(self).scheduled == old(self).scheduled,
            final(self).completed == old(self).completed,
            final(self).dead_letter == old(self).dead_letter,
            final(self).failure_reasons == old(self).failure_reasons,
    {
        let mut k: usize = 0;
        while k < self.timers.len() && !(e.0 < self.timers[k].0 || (e.0 == self.timers[k].0
            && e.1 < self.timers[k].1))
            invariant
                k <= self.timers@.len(),
                self == old(self),
                forall|i: int| 0 <= i < k ==> !timer_lt(e, #[trigger] self.timers@[i]),
            decreases self.timers@.len() - k,
        {
            k = k + 1;
        }
        let ghost old_t = self.timers@;
        assert(forall|i: int| k <= i < old_t.len() ==> timer_lt(e, #[trigger] old_t[i])) by {
            if k < old_t.len() {
                assert(timer_lt(e, old_t[k as int]));
                assert forall|i: int| k <= i < old_t.len() implies timer_lt(e, #[trigger] old_t[i]) by {
                    assert(!timer_lt(old_t[i], old_t[k as int]) || i == k);
                }
            }
        }
        self.timers.insert(k, e);
        assert(self.timers@ == old_t.insert(k as int, e));
        assert(timers_sorted(self.timers@)) by {
            assert forall|i: int, j: int| 0 <= i < j < self.timers@.len() implies !timer_lt(
                #[trigger] self.timers@[j],
                #[trigger] self.timers@[i],
            ) by {
                if j < k {
                    assert(self.timers@[i] == old_t[i] && self.timers@[j] == old_t[j]);
                } else if j == k {
                    assert(self.timers@[i] == old_t[i]);
                } else if i < k {
                    assert(self.timers@[i] == old_t[i] && self.timers@[j] == old_t[j - 1]);
                } else if i == k {
                    assert(self.timers@[j] == old_t[j - 1]);
                } else {
                    assert(self.timers@[i] == old_t[i - 1] && self.timers@[j] == old_t[j - 1]);
                }
            }
        }
    }

    /// Enqueues `job` as of time `now`: it is marked pending, and waits among
    /// the scheduled jobs when it is due after `now`.
    pub fn enqueue_at(&mut self, job: Job, now: i64)
        requires
            old(self).wf(),
        ensures
            final(self).wf(),
            enqueued(old(self)@, final(self)@, job@, now),
    {
        let mut job = job;
        job.status = JobStatus::Pending;
        match job.scheduled_at {
            Some(t) => {
                if t > now {
                    let id = job.id;
                    self.insert_timer((t, id));
                    self.scheduled.insert(id, job);
                    assert(job_map_views(self.scheduled@) =~= old(self)@.scheduled.insert(id, job@));
                    return;
                }
            },
            None => {},
        }
        self.pending.push_back(job);
        assert(job_views(self.pending@) =~= old(self)@.pending.push(job@));
    }

    /// Enqueues `job` as of the current time.
    pub fn enqueue(&mut self, job: Job)
        requires
            old(self).wf(),
        ensures
            final(self).wf(),
            exists|now: i64| enqueued(old(self)@, final(self)@, job@, now),
    {
        let now = now_micros();
        self.enqueue_at(job, now);
    }
}

/// The state after pending job `i` moved to processing as `j`.
pub open spec fn moved_to_processing(old: QueueView, new: QueueView, i: int, j: JobView) -> bool {
    &&& 0 <= i < old.pending.len()
    &&& j == with_status(old.pending[i], JobStatus::Processing)
    &&& new == QueueView {
        pending: old.pending.remove(i),
        processing: old.processing.insert(j.id, j),
        ..old
    }
}

/// The state after a successful acknowledgement of job `id`, which was `j`
/// before and is `r` now.
pub open spec fn acked(old: QueueView, new: QueueView, id: u128, r: JobView) -> bool {
    &&& old.processing.contains_key(id)
    &&& r == with_status(old.processing[id], JobStatus::Completed)
    &&& new == QueueView {
        processing: old.processing.remove(id),
        completed: old.completed.push(r),
        failure_reasons: old.failure_reasons.remove(id),
        ..old
    }
}

/// The job that a negative acknowledgement of `j` gives: one more attempt,
/// dead-lettered once the attempts reach the maximum, else pending again.
pub open spec fn nacked_job(j: JobView) -> JobView {
    let attempts = saturating_inc(j.attempts);
    JobView {
        attempts,
        status: if attempts >= j.max_attempts {
            JobStatus::DeadLetter
        } else {
            JobStatus::Pending
        },
        ..j
    }
}

/// The state after a successful negative acknowledgement of job `id` for
/// `reason`, the job now being `r`.
pub open spec fn nacked(old: QueueView, new: QueueView, id: u128, reason: Seq<char>, r: JobView) -> bool {
    &&& old.processing.contains_key(id)
    &&& r == nacked_job(old.processing[id])
    &&& if r.status == JobStatus::DeadLetter {
        new == QueueView {
            processing: old.processing.remove(id),
            dead_letter: old.dead_letter.push(r),
            failure_reasons: old.failure_reasons.insert(id, reason),
            ..old
        }
    } else {
        new == QueueView {
            processing: old.processing.remove(id),
            pending: old.pending.push(r),
            failure_reasons: old.failure_reasons.insert(id, reason),
            ..old
        }
    }
}

/// Promotes due timers in order: each due timer whose job still waits moves
/// that job, stamped with the timer's time, to the back of the pending line.
/// Gives the remaining timers, scheduled jobs and pending line, and the
/// number of jobs moved.
pub open spec fn promoted(
    timers: Seq<(i64, u128)>,
    scheduled: Map<u128, JobView>,
    pending: Seq<JobView>,
    now: i64,
) -> (Seq<(i64, u128)>, Map<u128, JobView>, Seq<JobView>, nat)
    decreases timers.len(),
{
    if timers.len() == 0 || timers[0].0 > now {
        (timers, scheduled, pending, 0)
    } else {
        let e = timers[0];
        if scheduled.contains_key(e.1) {
            let j = JobView { scheduled_at: Some(e.0), ..scheduled[e.1] };
            let r = promoted(timers.drop_first(), scheduled.remove(e.1), pending.push(j), now);
            (r.0, r.1, r.2, r.3 + 1)
        } else {
            promoted(timers.drop_first(), scheduled, pending, now)
        }
    }
}

impl Queue {
    fn move_to_processing(&mut self, job: Job) -> (r: Job)
        ensures
            r@ == with_status(job@, JobStatus::Processing),
            final(self)@ == (QueueView {
                processing: old(self)@.processing.insert(job.id, r@),
                ..old(self)@
            }),
            final(self).pending == old(self).pending,
            final(self).timers == old(self).timers,
    {
        let mut job = job;
        job.status = JobStatus::Processing;
        let copy = job.duplicate();
        self.processing.insert(job.id, copy);
        assert(job_map_views(self.processing@) =~= old(self)@.processing.insert(job.id, job@));
        job
    }

    /// Takes the job at the front of the pending line into processing.
    pub fn dequeue(&mut self) -> (r: Option<Job>)
        requires
            old(self).wf(),
        ensures
            final(self).wf(),
            old(self)@.pending.len() == 0 ==> r is None && final(self)@ == old(self)@,
            old(self)@.pending.len() > 0 ==> (r matches Some(j) && moved_to_processing(
                old(self)@,
                final(self)@,
                0,
                j@,
            )),
    {
        match self.pending.pop_front() {
            None => None,
            Some(job) => {
                assert(job_views(self.pending@) =~= old(self)@.pending.remove(0));
                let r = self.move_to_processing(job);
                Some(r)
            },
        }
    }

    /// Finds the first pending job whose id is `id`.
    fn position_of_id(&self, id: u128) -> (r: Option<usize>)
        ensures
            r matches Some(i) ==> i < self@.pending.len() && self@.pending[i as int].id == id
                && forall|k: int| 0 <= k < i ==> (#[trigger] self@.pending[k]).id != id,
            r is None ==> forall|k: int| 0 <= k < self@.pending.len() ==> (#[trigger] self@.pending[k]).id != id,
    {
        let mut i: usize = 0;
        while i < self.pending.len()
            invariant
                i <= self.pending@.len(),
                forall|k: int| 0 <= k < i ==> (#[trigger] self@.pending[k]).id != id,
            decreases self.pending@.len() - i,
        {
            if self.pending[i].id == id {
                return Some(i);
            }
            i = i + 1;
        }
        None
    }

    /// Finds the first pending job of queue `name`.
    fn position_in_queue(&self, name: &str) -> (r: Option<usize>)
        ensures
            r matches Some(i) ==> i < self@.pending.len() && self@.pending[i as int].queue == name@
                && forall|k: int| 0 <= k < i ==> (#[trigger] self@.pending[k]).queue != name@,
            r is None ==> forall|k: int|
                0 <= k < self@.pending.len() ==> (#[trigger] self@.pending[k]).queue != name@,
    {
        let mut i: usize = 0;
        while i < self.pending.len()
            invariant
                i <= self.pending@.len(),
                forall|k: int| 0 <= k < i ==> (#[trigger] self@.pending[k]).queue != name@,
            decreases self.pending@.len() - i,
        {
            if crate::text::str_eq(self.pending[i].queue.as_str(), name) {
                return Some(i);
            }
            i = i + 1;
        }
        None
    }

    fn take_pending(&mut self, i: usize) -> (r: Job)
        requires
            old(self).wf(),
            i < old(self)@.pending.len(),
        ensures
            final(self).wf(),
            moved_to_processing(old(self)@, final(self)@, i as int, r@),
    {
        let job = self.pending.remove(i);
        match job {
            Some(job) => {
                assert(job_views(self.pending@) =~= old(self)@.pending.remove(i as int));
                self.move_to_processing(job)
            },
            None => {
                proof {
                    assert(false);
                }
                Job::with_identity(0, "", Vec::new(), 0, 0)
            },
        }
    }

    /// Takes the first pending job of queue `name` into processing.
    pub fn dequeue_for_queue(&mut self, name: &str) -> (r: Option<Job>)
        requires
            old(self).wf(),
        ensures
            final(self).wf(),
            r is None <==> forall|k: int|
                0 <= k < old(self)@.pending.len() ==> (#[trigger] old(self)@.pending[k]).queue != name@,
            r is None ==> final(self)@ == old(self)@,
            r matches Some(j) ==> exists|i: int|
                0 <= i < old(self)@.pending.len() && old(self)@.pending[i].queue == name@ && (forall|k: int|
                    0 <= k < i ==> (#[trigger] old(self)@.pending[k]).queue != name@) && moved_to_processing(
                    old(self)@,
                    final(self)@,
                    i,
                    j@,
                ),
    {
        match self.position_in_queue(name) {
            None => None,
            Some(i) => Some(self.take_pending(i)),
        }
    }

    /// Takes the first pending job with id `id` into processing.
    pub fn dequeue_id(&mut self, id: u128) -> (r: Option<Job>)
        requires
            old(self).wf(),
        ensures
            final(self).wf(),
            r is None <==> forall|k: int|
                0 <= k < old(self)@.pending.len() ==> (#[trigger] old(self)@.pending[k]).id != id,
            r is None ==> final(self)@ == old(self)@,
            r matches Some(j) ==> exists|i: int|
                0 <= i < old(self)@.pending.len() && old(self)@.pending[i].id == id && (forall|k: int|
                    0 <= k < i ==> (#[trigger] old(self)@.pending[k]).id != id) && moved_to_processing(
                    old(self)@,
                    final(self)@,
                    i,
                    j@,
                ),
    {
        match self.position_of_id(id) {
            None => None,
            Some(i) => Some(self.take_pending(i)),
        }
    }

    /// Marks processing job `id` completed.
    pub fn ack(&mut self, id: u128) -> (r: Result<Job, QueueError>)
        requires
            old(self).wf(),
        ensures
            final(self).wf(),
            !old(self)@.processing.contains_key(id) ==> r == Err::<Job, QueueError>(
                QueueError::JobNotProcessing(id),
            ) && final(self)@ == old(self)@,
            old(self)@.processing.contains_key(id) ==> (r matches Ok(j) && acked(
                old(self)@,
                final(self)@,
                id,
                j@,
            )),
    {
        match self.processing.remove(&id) {
            None => {
                assert(self.processing@ =~= old(self).processing@);
                Err(QueueError::JobNotProcessing(id))
            },
            Some(job) => {
                let mut job = job;
                job.status = JobStatus::Completed;
                self.failure_reasons.remove(&id);
                let copy = job.duplicate();
                self.completed.push(copy);
                proof {
                    assert(job_map_views(self.processing@) =~= old(self)@.processing.remove(id));
                    assert(string_map_views(self.failure_reasons@) =~= old(self)@.failure_reasons.remove(id));
                    assert(job_views(self.completed@) =~= old(self)@.completed.push(job@));
                }
                Ok(job)
            },
        }
    }

    /// Records a failed attempt of processing job `id` for `reason`.
    pub fn nack(&mut self, id: u128, reason: &str) -> (r: Result<Job, QueueError>)
        requires
            old(self).wf(),
        ensures
            final(self).wf(),
            !old(self)@.processing.contains_key(id) ==> r == Err::<Job, QueueError>(
                QueueError::JobNotProcessing(id),
            ) && final(self)@ == old(self)@,
            old(self)@.processing.contains_key(id) ==> (r matches Ok(j) && nacked(
                old(self)@,
                final(self)@,
                id,
                reason@,
                j@,
            )),
    {
        match self.processing.remove(&id) {
            None => {
                assert(self.processing@ =~= old(self).processing@);
                Err(QueueError::JobNotProcessing(id))
            },
            Some(job) => {
                let mut job = job;
                job.attempts = job.attempts.saturating_add(1);
                self.failure_reasons.insert(id, reason.to_string());
                proof {
                    assert(job_map_views(self.processing@) =~= old(self)@.processing.remove(id));
                    assert(string_map_views(self.failure_reasons@) =~= old(self)@.failure_reasons.insert(id, reason@));
                }
                if job.attempts >= job.max_attempts {
                    job.status = JobStatus::DeadLetter;
                    let copy = job.duplicate();
                    self.dead_letter.push(copy);
                    assert(job_views(self.dead_letter@) =~= old(self)@.dead_letter.push(job@));
                    Ok(job)
                } else {
                    job.status = JobStatus::Pending;
                    let copy = job.duplicate();
                    self.pending.push_back(copy);
                    assert(job_views(self.pending@) =~= old(self)@.pending.push(job@));
                    Ok(job)
                }
            },
        }
    }

    /// The number of pending jobs.
    pub fn pending_len(&self) -> (r: usize)
        ensures
            r == self@.pending.len(),
    {
        self.pending.len()
    }

    /// The number of jobs being processed.
    pub fn processing_len(&self) -> (r: usize)
        ensures
            r == self@.processing.len(),
    {
        proof {
            assert(job_map_views(self.processing@).dom() =~= self.processing@.dom());
        }
        self.processing.len()
    }

    /// The number of jobs waiting for their time.
    pub fn scheduled_len(&self) -> (r: usize)
        ensures
            r == self@.scheduled.len(),
    {
        proof {
            assert(job_map_views(self.scheduled@).dom() =~= self.scheduled@.dom());
        }
        self.scheduled.len()
    }

    /// The number of completed jobs.
    pub fn completed_len(&self) -> (r: usize)
        ensures
            r == self@.completed.len(),
    {
        self.completed.len()
    }

    /// The number of dead-lettered jobs.
    pub fn dead_letter_len(&self) -> (r: usize)
        ensures
            r == self@.dead_letter.len(),
    {
        self.dead_letter.len()
    }

    /// True when no job is pending, processing or waiting for its time.
    pub fn is_empty(&self) -> (r: bool)
        ensures
            r == (self@.pending.len() == 0 && self@.processing.is_empty() && self@.scheduled.is_empty()),
    {
        proof {
            assert(job_map_views(self.processing@).dom() =~= self.processing@.dom());
            assert(job_map_views(self.scheduled@).dom() =~= self.scheduled@.dom());
            assert(self@.processing.is_empty() == self.processing@.is_empty()) by {
                if self.processing@.is_empty() {
                    assert(self@.processing =~= Map::empty());
                }
                if self@.processing.is_empty() {
                    assert(self.processing@ =~= Map::empty());
                }
            }
            assert(self@.scheduled.is_empty() == self.scheduled@.is_empty()) by {
                if self.scheduled@.is_empty() {
                    assert(self@.scheduled =~= Map::empty());
                }
                if self@.scheduled.is_empty() {
                    assert(self.scheduled@ =~= Map::empty());
                }
            }
        }
        self.pending.len() == 0 && self.processing.is_empty() && self.scheduled.is_empty()
    }

    /// The completed jobs, oldest first.
    pub fn completed_jobs(&self) -> (r: &[Job])
        ensures
            job_views(r@) == self@.completed,
    {
        self.completed.as_slice()
    }

    /// The dead-lettered jobs, oldest first.
    pub fn dead_letter_jobs(&self) -> (r: &[Job])
        ensures
            job_views(r@) == self@.dead_letter,
    {
        self.dead_letter.as_slice()
    }

    /// The last failure reason recorded for job `id`.
    pub fn failure_reason(&self, id: u128) -> (r: Option<&str>)
        ensures
            r is Some <==> self@.failure_reasons.contains_key(id),
            r matches Some(s) ==> s@ == self@.failure_reasons[id],
    {
        match self.failure_reasons.get(&id) {
            Some(s) => Some(s.as_str()),
            None => None,
        }
    }
}

proof fn lemma_promoted_count(
    timers: Seq<(i64, u128)>,
    scheduled: Map<u128, JobView>,
    pending: Seq<JobView>,
    now: i64,
)
    ensures
        promoted(timers, scheduled, pending, now).3 <= timers.len(),
    decreases timers.len(),
{
    if timers.len() > 0 && timers[0].0 <= now {
        let e = timers[0];
        if scheduled.contains_key(e.1) {
            let j = JobView { scheduled_at: Some(e.0), ..scheduled[e.1] };
            lemma_promoted_count(timers.drop_first(), scheduled.remove(e.1), pending.push(j), now);
        } else {
            lemma_promoted_count(timers.drop_first(), scheduled, pending, now);
        }
    }
}

/// A change to the queue, as the write-ahead log records it.
pub enum WalEvent {
    Enqueue(Job),
    Dequeue(u128),
    Ack(u128),
    Nack(u128, String),
}

/// The state after the first pending job with id `id` (if any) moved to
/// processing.
pub open spec fn dequeued_id(old: QueueView, new: QueueView, id: u128) -> bool {
    if forall|k: int| 0 <= k < old.pending.len() ==> (#[trigger] old.pending[k]).id != id {
        new == old
    } else {
        exists|i: int, j: JobView|
            0 <= i < old.pending.len() && old.pending[i].id == id && (forall|k: int|
                0 <= k < i ==> (#[trigger] old.pending[k]).id != id) && moved_to_processing(old, new, i, j)
    }
}

impl Queue {
    /// Moves every job whose time has come (at `now`) to the back of the
    /// pending line, earliest first; gives how many moved.
    pub fn promote_ready_jobs(&mut self, now: i64) -> (r: usize)
        requires
            old(self).wf(),
        ensures
            final(self).wf(),
            ({
                let p = promoted(old(self)@.timers, old(self)@.scheduled, old(self)@.pending, now);
                &&& final(self)@.timers == p.0
                &&& final(self)@.scheduled == p.1
                &&& final(self)@.pending == p.2
                &&& r == p.3
            }),
            final(self)@.processing == old(self)@.processing,
            final(self)@.completed == old(self)@.completed,
            final(self)@.dead_letter == old(self)@.dead_letter,
            final(self)@.failure_reasons == old(self)@.failure_reasons,
    {
        let ghost p = promoted(old(self)@.timers, old(self)@.scheduled, old(self)@.pending, now);
        proof {
            lemma_promoted_count(old(self)@.timers, old(self)@.scheduled, old(self)@.pending, now);
        }
        let mut count: usize = 0;
        let total = self.timers.len();
        while self.timers.len() > 0 && self.timers[0].0 <= now
            invariant
                self.wf(),
                total == old(self)@.timers.len(),
                ({
                    let q = promoted(self@.timers, self@.scheduled, self@.pending, now);
                    q.0 == p.0 && q.1 == p.1 && q.2 == p.2 && q.3 + count == p.3
                }),
                p.3 <= old(self)@.timers.len(),
                self@.processing == old(self)@.processing,
                self@.completed == old(self)@.completed,
                self@.dead_letter == old(self)@.dead_letter,
                self@.failure_reasons == old(self)@.failure_reasons,
            decreases self.timers@.len(),
        {
            let ghost before = self@;
            proof {
                lemma_promoted_count(before.timers, before.scheduled, before.pending, now);
            }
            let e = match self.timers.pop_front() {
                Some(e) => e,
                None => {
                    proof {
                        assert(false);
                    }
                    (0i64, 0u128)
                },
            };
            assert(self.timers@ =~= before.timers.drop_first());
            assert(timers_sorted(self.timers@)) by {
                assert forall|i: int, j: int| 0 <= i < j < self.timers@.len() implies !timer_lt(
                    #[trigger] self.timers@[j],
                    #[trigger] self.timers@[i],
                ) by {
                    assert(self.timers@[i] == before.timers[i + 1]);
                    assert(self.timers@[j] == before.timers[j + 1]);
                }
            }
            match self.scheduled.remove(&e.1) {
                Some(job) => {
                    assert(before.scheduled.contains_key(e.1));
                    assert(before.scheduled[e.1] == job@);
                    let mut job = job;
                    job.scheduled_at = Some(e.0);
                    assert(job@ == (JobView { scheduled_at: Some(e.0), ..before.scheduled[e.1] }));
                    self.pending.push_back(job);
                    count = count + 1;
                    proof {
                        assert(job_map_views(self.scheduled@) =~= before.scheduled.remove(e.1));
                        assert(job_views(self.pending@) =~= before.pending.push(job@));
                    }
                },
                None => {
                    assert(!before.scheduled.contains_key(e.1));
                    assert(job_map_views(self.scheduled@) =~= before.scheduled);
                },
            }
        }
        count
    }

    /// Applies one logged change as of time `now`.  Acknowledgements of jobs
    /// that are not processing fail and change nothing.
    pub fn apply_event(&mut self, event: WalEvent, now: i64) -> (r: Result<(), QueueError>)
        requires
            old(self).wf(),
        ensures
            final(self).wf(),
            event_applied(old(self)@, event, now, final(self)@),
            match event {
                WalEvent::Enqueue(job) => r is Ok && enqueued(old(self)@, final(self)@, job@, now),
                WalEvent::Dequeue(id) => r is Ok && dequeued_id(old(self)@, final(self)@, id),
                WalEvent::Ack(id) => if old(self)@.processing.contains_key(id) {
                    r is Ok && exists|j: JobView| acked(old(self)@, final(self)@, id, j)
                } else {
                    r == Err::<(), QueueError>(QueueError::JobNotProcessing(id)) && final(self)@
                        == old(self)@
                },
                WalEvent::Nack(id, reason) => if old(self)@.processing.contains_key(id) {
                    r is Ok && exists|j: JobView| nacked(old(self)@, final(self)@, id, reason@, j)
                } else {
                    r == Err::<(), QueueError>(QueueError::JobNotProcessing(id)) && final(self)@
                        == old(self)@
                },
            },
    {
        match event {
            WalEvent::Enqueue(job) => {
                self.enqueue_at(job, now);
                Ok(())
            },
            WalEvent::Dequeue(id) => {
                match self.dequeue_id(id) {
                    Some(j) => {
                        assert(exists|i: int, jv: JobView|
                            0 <= i < old(self)@.pending.len() && old(self)@.pending[i].id == id && (forall|k: int|
                                0 <= k < i ==> (#[trigger] old(self)@.pending[k]).id != id) && moved_to_processing(
                                old(self)@,
                                self@,
                                i,
                                jv,
                            ));
                    },
                    None => {},
                }
                Ok(())
            },
            WalEvent::Ack(id) => match self.ack(id) {
                Ok(_) => Ok(()),
                Err(e) => Err(e),
            },
            WalEvent::Nack(id, reason) => match self.nack(id, reason.as_str()) {
                Ok(_) => Ok(()),
                Err(e) => Err(e),
            },
        }
    }
}

/// The state `new` that applying the logged `event` to `old` at time `now`
/// gives; an acknowledgement of a job that is not processing changes
/// nothing.
pub open spec fn event_applied(old: QueueView, event: WalEvent, now: i64, new: QueueView) -> bool {
    match event {
        WalEvent::Enqueue(job) => enqueued(old, new, job@, now),
        WalEvent::Dequeue(id) => dequeued_id(old, new, id),
        WalEvent::Ack(id) => if old.processing.contains_key(id) {
            exists|j: JobView| acked(old, new, id, j)
        } else {
            new == old
        },
        WalEvent::Nack(id, reason) => if old.processing.contains_key(id) {
            exists|j: JobView| nacked(old, new, id, reason@, j)
        } else {
            new == old
        },
    }
}

/// True when an enqueued job's schedule is due at `a` exactly when it is at
/// `b` (always so for the other events).
pub open spec fn due_agrees(event: WalEvent, a: i64, b: i64) -> bool {
    match event {
        WalEvent::Enqueue(job) => match job.scheduled_at {
            Some(t) => (t > a) == (t > b),
            None => true,
        },
        _ => true,
    }
}

/// The state applying `event` to `old` at `now` gives.
pub open spec fn after_event(old: QueueView, event: WalEvent, now: i64) -> QueueView {
    choose|new: QueueView| event_applied(old, event, now, new)
}

/// The state replaying `events`, in order, from `q` at time `now` gives.
pub open spec fn replayed(q: QueueView, events: Seq<WalEvent>, now: i64) -> QueueView
    decreases events.len(),
{
    if events.len() == 0 {
        q
    } else {
        after_event(replayed(q, events.drop_last(), now), events.last(), now)
    }
}

proof fn lemma_timer_insert_unique(old: Seq<(i64, u128)>, a: Seq<(i64, u128)>, b: Seq<(i64, u128)>, e: (i64, u128))
    requires
        timer_inserted(old, a, e),
        timer_inserted(old, b, e),
    ensures
        a == b,
{
    let ka = choose|k: int|
        0 <= k <= old.len() && a == old.insert(k, e) && (forall|i: int|
            0 <= i < k ==> !timer_lt(e, #[trigger] old[i])) && (forall|i: int|
            k <= i < old.len() ==> timer_lt(e, #[trigger] old[i]));
    let kb = choose|k: int|
        0 <= k <= old.len() && b == old.insert(k, e) && (forall|i: int|
            0 <= i < k ==> !timer_lt(e, #[trigger] old[i])) && (forall|i: int|
            k <= i < old.len() ==> timer_lt(e, #[trigger] old[i]));
    assert(a == old.insert(ka, e) && b == old.insert(kb, e));
    if ka < kb {
        assert(timer_lt(e, old[ka]));
        assert(!timer_lt(e, old[ka]));
    } else if kb < ka {
        assert(timer_lt(e, old[kb]));
        assert(!timer_lt(e, old[kb]));
    }
}

/// Applying a logged change is deterministic: one state and one event (at
/// one time) give one state.
pub proof fn event_application_is_deterministic(old: QueueView, event: WalEvent, now: i64, a: QueueView, b: QueueView)
    requires
        event_applied(old, event, now, a),
        event_applied(old, event, now, b),
    ensures
        a == b,
{
    match event {
        WalEvent::Enqueue(job) => {
            if job@.scheduled_at is Some && job@.scheduled_at->0 > now {
                lemma_timer_insert_unique(old.timers, a.timers, b.timers, (job@.scheduled_at->0, job@.id));
            }
        },
        WalEvent::Dequeue(id) => {
            if exists|k: int| 0 <= k < old.pending.len() && (#[trigger] old.pending[k]).id == id {
                let (ia, ja) = choose|i: int, j: JobView|
                    0 <= i < old.pending.len() && old.pending[i].id == id && (forall|k: int|
                        0 <= k < i ==> (#[trigger] old.pending[k]).id != id) && moved_to_processing(old, a, i, j);
                let (ib, jb) = choose|i: int, j: JobView|
                    0 <= i < old.pending.len() && old.pending[i].id == id && (forall|k: int|
                        0 <= k < i ==> (#[trigger] old.pending[k]).id != id) && moved_to_processing(old, b, i, j);
                if ia < ib {
                    assert(old.pending[ia].id != id);
                } else if ib < ia {
                    assert(old.pending[ib].id != id);
                }
            }
        },
        WalEvent::Ack(id) => {},
        WalEvent::Nack(id, reason) => {},
    }
}

/// A state applying `event` gives at one time it gives at any other time at
/// which the event's schedule is as due.
proof fn lemma_event_applied_due(old: QueueView, event: WalEvent, a: i64, b: i64, new: QueueView)
    requires
        event_applied(old, event, a, new),
        due_agrees(event, a, b),
    ensures
        event_applied(old, event, b, new),
{
}

/// Replaying the events a run logged, from the state it began in, gives
/// the state it left: the queue a reopened log rebuilds is the queue that
/// was written, whatever the replay's time, as long as each scheduled job
/// is as due then as it was when it was enqueued.
pub proof fn replay_reproduces_run(states: Seq<QueueView>, events: Seq<WalEvent>, run_times: Seq<i64>, now: i64)
    requires
        states.len() == events.len() + 1,
        run_times.len() == events.len(),
        forall|k: int| 0 <= k < events.len() ==> event_applied(states[k], #[trigger] events[k], run_times[k], states[k + 1]),
        forall|k: int| 0 <= k < events.len() ==> due_agrees(#[trigger] events[k], run_times[k], now),
    ensures
        replayed(states[0], events, now) == states[events.len() as int],
    decreases events.len(),
{
    if events.len() > 0 {
        let n = events.len() - 1;
        let es = events.drop_last();
        replay_reproduces_run(states.drop_last(), es, run_times.drop_last(), now);
        assert(states.drop_last()[0] == states[0]);
        assert(replayed(states[0], es, now) == states[n]);
        assert(event_applied(states[n], events[n], run_times[n], states[n + 1]));
        lemma_event_applied_due(states[n], events[n], run_times[n], now, states[n + 1]);
        let c = after_event(states[n], events[n], now);
        assert(event_applied(states[n], events[n], now, c));
        event_application_is_deterministic(states[n], events[n], now, c, states[n + 1]);
    }
}

impl Queue {
    /// Applies logged changes, in order, as of time `now`: how a log is read
    /// back into the queue.
    pub fn replay(&mut self, events: Vec<WalEvent>, now: i64)
        requires
            old(self).wf(),
        ensures
            final(self).wf(),
            final(self)@ == replayed(old(self)@, events@, now),
    {
        let ghost ev = events@;
        let mut events = events;
        let mut stack: Vec<WalEvent> = Vec::new();
        while events.len() > 0
            invariant
                events@.len() + stack@.len() == ev.len(),
                events@ == ev.take(events@.len() as int),
                forall|k: int| 0 <= k < stack@.len() ==> #[trigger] stack@[k] == ev[ev.len() - 1 - k],
            decreases events@.len(),
        {
            let ghost n = events@.len();
            match events.pop() {
                Some(e) => {
                    stack.push(e);
                    assert(events@ =~= ev.take(n - 1));
                },
                None => {},
            }
        }
        assert(ev.take(0) =~= Seq::<WalEvent>::empty());
        while stack.len() > 0
            invariant
                self.wf(),
                stack@.len() <= ev.len(),
                forall|k: int| 0 <= k < stack@.len() ==> #[trigger] stack@[k] == ev[ev.len() - 1 - k],
                self@ == replayed(old(self)@, ev.take(ev.len() - stack@.len()), now),
            decreases stack@.len(),
        {
            let ghost i = ev.len() - stack@.len();
            let ghost before = self@;
            match stack.pop() {
                Some(e) => {
                    assert(e == ev[i]);
                    let _ = self.apply_event(e, now);
                    proof {
                        let c = after_event(before, ev[i], now);
                        assert(event_applied(before, ev[i], now, c));
                        event_application_is_deterministic(before, ev[i], now, c, self@);
                        assert(ev.take(i + 1).drop_last() =~= ev.take(i));
                        assert(ev.take(i + 1).last() == ev[i]);
                    }
                },
                None => {},
            }
        }
        assert(ev.take(ev.len() as int) =~= ev);
    }
}

/// A copy of the queue's contents, for persisting.
pub struct QueueSnapshot {
    pub pending: VecDeque<Job>,
    pub processing: HashMap<u128, Job>,
    pub scheduled: Vec<Job>,
    pub completed: Vec<Job>,
    pub dead_letter: Vec<Job>,
    pub failure_reasons: HashMap<u128, String>,
}

/// True when `s` lists each job of `m` exactly once.
pub open spec fn lists_jobs(s: Seq<JobView>, m: Map<u128, JobView>) -> bool {
    &&& forall|i: int, j: int| 0 <= i < j < s.len() ==> (#[trigger] s[i]).id != (#[trigger] s[j]).id
    &&& forall|i: int| 0 <= i < s.len() ==> m.contains_key((#[trigger] s[i]).id) && m[s[i].id] == s[i]
    &&& forall|k: u128| #[trigger] m.contains_key(k) ==> exists|i: int| 0 <= i < s.len() && s[i].id == k
}

/// True when `s` is a snapshot of `q`.
pub open spec fn snapshot_of(q: QueueView, s: QueueSnapshot) -> bool {
    &&& job_views(s.pending@) == q.pending
    &&& job_map_views(s.processing@) == q.processing
    &&& lists_jobs(job_views(s.scheduled@), q.scheduled)
    &&& job_views(s.completed@) == q.completed
    &&& job_views(s.dead_letter@) == q.dead_letter
    &&& string_map_views(s.failure_reasons@) == q.failure_reasons
}

/// Jobs keyed by id, later ones replacing earlier ones with the same id.
pub open spec fn jobs_by_id(s: Seq<JobView>) -> Map<u128, JobView>
    decreases s.len(),
{
    if s.len() == 0 {
        Map::empty()
    } else {
        jobs_by_id(s.drop_last()).insert(s.last().id, s.last())
    }
}

/// The timers of the jobs in `s` that carry a time, in order.
pub open spec fn timer_entries(s: Seq<JobView>) -> Seq<(i64, u128)>
    decreases s.len(),
{
    if s.len() == 0 {
        Seq::empty()
    } else {
        timer_entries(s.drop_last()) + match s.last().scheduled_at {
            Some(t) => seq![(t, s.last().id)],
            None => Seq::empty(),
        }
    }
}

/// True when `r` is the queue that snapshot `s` restores.
pub open spec fn restored_from(s: QueueSnapshot, r: QueueView) -> bool {
    &&& r.pending == job_views(s.pending@)
    &&& r.processing == job_map_views(s.processing@)
    &&& r.scheduled == jobs_by_id(job_views(s.scheduled@))
    &&& r.timers.to_multiset() == timer_entries(job_views(s.scheduled@)).to_multiset()
    &&& r.completed == job_views(s.completed@)
    &&& r.dead_letter == job_views(s.dead_letter@)
    &&& r.failure_reasons == string_map_views(s.failure_reasons@)
}

/// Copies a slice of jobs.
fn copy_jobs(jobs: &[Job]) -> (r: Vec<Job>)
    ensures
        job_views(r@) == job_views(jobs@),
{
    let mut r: Vec<Job> = Vec::new();
    let mut i: usize = 0;
    while i < jobs.len()
        invariant
            i <= jobs@.len(),
            job_views(r@) == job_views(jobs@).take(i as int),
        decreases jobs@.len() - i,
    {
        let ghost before = r@;
        let d = jobs[i].duplicate();
        r.push(d);
        assert(job_views(r@) =~= job_views(before).push(d@));
        assert(job_views(jobs@).take(i + 1) =~= job_views(jobs@).take(i as int).push(jobs@[i as int]@));
        i = i + 1;
    }
    assert(job_views(jobs@).take(jobs@.len() as int) =~= job_views(jobs@));
    r
}

proof fn lemma_timer_insert_multiset(t: Seq<(i64, u128)>, k: int, e: (i64, u128))
    requires
        0 <= k <= t.len(),
    ensures
        t.insert(k, e).to_multiset() == t.to_multiset().insert(e),
{
    let a = t.take(k);
    let b = t.skip(k);
    assert(t.insert(k, e) =~= a.push(e) + b);
    assert(t =~= a + b);
    vstd::seq_lib::lemma_multiset_commutative(a.push(e), b);
    vstd::seq_lib::lemma_multiset_commutative(a, b);
    a.to_multiset_ensures();
    assert(a.push(e).to_multiset() == a.to_multiset().insert(e));
    assert(a.to_multiset().insert(e).add(b.to_multiset()) =~= a.to_multiset().add(b.to_multiset()).insert(e));
}

impl Queue {
    /// A snapshot of the queue's contents.
    pub fn snapshot(&self) -> (r: QueueSnapshot)
        requires
            self.wf(),
        ensures
            snapshot_of(self@, r),
    {
        let mut pending: VecDeque<Job> = VecDeque::new();
        let mut i: usize = 0;
        while i < self.pending.len()
            invariant
                i <= self.pending@.len(),
                job_views(pending@) == self@.pending.take(i as int),
            decreases self.pending@.len() - i,
        {
            let ghost before = pending@;
            let d = self.pending[i].duplicate();
            pending.push_back(d);
            assert(job_views(pending@) =~= job_views(before).push(d@));
            assert(self@.pending.take(i + 1) =~= self@.pending.take(i as int).push(self.pending@[i as int]@));
            i = i + 1;
        }
        assert(self@.pending.take(self.pending@.len() as int) =~= self@.pending);
        let mut scheduled: Vec<Job> = Vec::new();
        let ghost ks = vstd::std_specs::hash::spec_keys_iter(&self.scheduled).remaining();
        for k in it: self.scheduled.keys()
            invariant
                self.wf(),
                it.seq() == ks,
                scheduled@.len() == it.index(),
                forall|i: int| 0 <= i < scheduled@.len() ==> self.scheduled@.contains_key(#[trigger] *ks[i]),
                forall|i: int| 0 <= i < scheduled@.len() ==> (#[trigger] scheduled@[i])@ == self@.scheduled[*ks[i]],
        {
            let got = self.scheduled.get(k);
            proof {
                assert(k == it.seq()[it.index()]);
                assert(ks.unref()[it.index()] == *k);
                assert(ks.unref().to_set().contains(*k));
                assert(self.scheduled@.contains_key(*k));
            }
            let job = got.unwrap();
            assert(self.scheduled@[*k] == *job);
            assert(self@.scheduled[*k] == job@);
            let ghost before = scheduled@;
            let d = job.duplicate();
            scheduled.push(d);
            assert forall|i: int| 0 <= i < scheduled@.len() implies self.scheduled@.contains_key(*ks[i])
                && (#[trigger] scheduled@[i])@ == self@.scheduled[*ks[i]] by {
                if i < before.len() {
                    assert(scheduled@[i] == before[i]);
                } else {
                    assert(scheduled@[i] == d);
                    assert(*ks[i] == *k);
                }
            }
        }
        proof {
            let sv = job_views(scheduled@);
            assert(sv.len() == ks.len());
            assert(ks.no_duplicates());
            assert(ks.unref().to_set() == self.scheduled@.dom());
            assert forall|i: int| 0 <= i < sv.len() implies (#[trigger] sv[i]).id == *ks[i] by {
                assert(self@.scheduled.contains_key(*ks[i]));
            }
            assert forall|i: int, j: int| 0 <= i < j < sv.len() implies (#[trigger] sv[i]).id != (
            #[trigger] sv[j]).id by {
                assert(sv[i].id == *ks[i]);
                assert(sv[j].id == *ks[j]);
            }
            assert forall|k: u128| #[trigger] self@.scheduled.contains_key(k) implies exists|i: int|
                0 <= i < sv.len() && sv[i].id == k by {
                assert(self.scheduled@.dom().contains(k));
                assert(ks.unref().to_set().contains(k));
                let i = choose|i: int| 0 <= i < ks.unref().len() && ks.unref()[i] == k;
                assert(sv[i].id == *ks[i]);
            }
        }
        let r = QueueSnapshot {
            pending,
            processing: self.processing.clone(),
            scheduled,
            completed: copy_jobs(self.completed.as_slice()),
            dead_letter: copy_jobs(self.dead_letter.as_slice()),
            failure_reasons: self.failure_reasons.clone(),
        };
        r
    }

    /// Rebuilds a queue from a snapshot; each job that carries a time gets
    /// its timer back.
    pub fn from_snapshot(snapshot: QueueSnapshot) -> (r: Queue)
        ensures
            r.wf(),
            restored_from(snapshot, r@),
    {
        let ghost sv = job_views(snapshot.scheduled@);
        let QueueSnapshot { pending, processing, scheduled, completed, dead_letter, failure_reasons } =
            snapshot;
        let mut q = Queue {
            pending,
            processing,
            scheduled: HashMap::new(),
            timers: VecDeque::new(),
            completed,
            dead_letter,
            failure_reasons,
        };
        assert(job_map_views(q.scheduled@) =~= Map::empty());
        assert(sv.take(0) =~= Seq::<JobView>::empty());
        let mut i: usize = 0;
        while i < scheduled.len()
            invariant
                q.wf(),
                i <= scheduled@.len(),
                sv == job_views(scheduled@),
                q@.scheduled == jobs_by_id(sv.take(i as int)),
                q@.timers.to_multiset() == timer_entries(sv.take(i as int)).to_multiset(),
                q.pending == snapshot.pending,
                q.processing == snapshot.processing,
                q.completed == snapshot.completed,
                q.dead_letter == snapshot.dead_letter,
                q.failure_reasons == snapshot.failure_reasons,
            decreases scheduled@.len() - i,
        {
            let job = scheduled[i].duplicate();
            let ghost before = q@;
            proof {
                assert(sv.take(i + 1).drop_last() =~= sv.take(i as int));
                assert(sv.take(i + 1).last() == job@);
            }
            match job.scheduled_at {
                Some(t) => {
                    q.insert_timer((t, job.id));
                    proof {
                        let k = choose|k: int|
                            0 <= k <= before.timers.len() && q@.timers == before.timers.insert(k, (t, job.id))
                                && (forall|i: int|
                                0 <= i < k ==> !timer_lt((t, job.id), #[trigger] before.timers[i])) && (forall|
                                i: int,
                            |
                                k <= i < before.timers.len() ==> timer_lt((t, job.id), #[trigger] before.timers[i]));
                        lemma_timer_insert_multiset(before.timers, k, (t, job.id));
                        let prev = timer_entries(sv.take(i as int));
                        assert(timer_entries(sv.take(i + 1)) == prev + seq![(t, job.id)]);
                        vstd::seq_lib::lemma_multiset_commutative(prev, seq![(t, job.id)]);
                        assert(seq![(t, job.id)].to_multiset() =~= Multiset::empty().insert((t, job.id))) by {
                            Seq::<(i64, u128)>::empty().to_multiset_ensures();
                            assert(seq![(t, job.id)] =~= Seq::<(i64, u128)>::empty().push((t, job.id)));
                        }
                        assert(prev.to_multiset().add(Multiset::empty().insert((t, job.id))) =~= prev.to_multiset().insert((t, job.id)));
                    }
                },
                None => {
                    proof {
                        let prev = timer_entries(sv.take(i as int));
                        assert(timer_entries(sv.take(i + 1)) =~= prev);
                    }
                },
            }
            let id = job.id;
            q.scheduled.insert(id, job);
            proof {
                assert(job_map_views(q.scheduled@) =~= jobs_by_id(sv.take(i as int)).insert(id, sv[i as int]));
            }
            i = i + 1;
        }
        proof {
            assert(sv.take(scheduled@.len() as int) =~= sv);
        }
        q
    }
}

proof fn lemma_jobs_by_id(s: Seq<JobView>)
    requires
        forall|i: int, j: int| 0 <= i < j < s.len() ==> (#[trigger] s[i]).id != (#[trigger] s[j]).id,
    ensures
        forall|i: int|
            0 <= i < s.len() ==> jobs_by_id(s).contains_key((#[trigger] s[i]).id) && jobs_by_id(s)[s[i].id]
                == s[i],
        forall|k: u128| #[trigger]
            jobs_by_id(s).contains_key(k) ==> exists|i: int| 0 <= i < s.len() && s[i].id == k,
    decreases s.len(),
{
    if s.len() > 0 {
        let p = s.drop_last();
        lemma_jobs_by_id(p);
        assert forall|i: int| 0 <= i < s.len() implies jobs_by_id(s).contains_key((#[trigger] s[i]).id)
            && jobs_by_id(s)[s[i].id] == s[i] by {
            if i < s.len() - 1 {
                assert(p[i] == s[i]);
                assert(s[i].id != s[s.len() - 1].id);
            }
        }
        assert forall|k: u128| #[trigger] jobs_by_id(s).contains_key(k) implies exists|i: int|
            0 <= i < s.len() && s[i].id == k by {
            if k != s.last().id {
                assert(jobs_by_id(p).contains_key(k));
                let i = choose|i: int| 0 <= i < p.len() && p[i].id == k;
                assert(s[i] == p[i]);
            } else {
                assert(s[s.len() - 1].id == k);
            }
        }
    }
}

/// Restoring a snapshot gives back the queue it was taken of: the same
/// pending line, processing jobs, scheduled jobs, completed and
/// dead-lettered jobs, and failure reasons.
pub proof fn snapshot_round_trip(q: QueueView, s: QueueSnapshot, r: QueueView)
    requires
        snapshot_of(q, s),
        restored_from(s, r),
    ensures
        r.pending == q.pending,
        r.processing == q.processing,
        r.scheduled == q.scheduled,
        r.completed == q.completed,
        r.dead_letter == q.dead_letter,
        r.failure_reasons == q.failure_reasons,
{
    let sv = job_views(s.scheduled@);
    lemma_jobs_by_id(sv);
    let m = jobs_by_id(sv);
    assert forall|k: u128| #[trigger] m.contains_key(k) <==> q.scheduled.contains_key(k) by {
        if m.contains_key(k) {
            let i = choose|i: int| 0 <= i < sv.len() && sv[i].id == k;
            assert(q.scheduled.contains_key(sv[i].id));
        }
        if q.scheduled.contains_key(k) {
            let i = choose|i: int| 0 <= i < sv.len() && sv[i].id == k;
            assert(m.contains_key(sv[i].id));
        }
    }
    assert forall|k: u128| #[trigger] m.contains_key(k) implies m[k] == q.scheduled[k] by {
        let i = choose|i: int| 0 <= i < sv.len() && sv[i].id == k;
        assert(m[sv[i].id] == sv[i]);
        assert(q.scheduled[sv[i].id] == sv[i]);
    }
    assert(m =~= q.scheduled);
}

/// The number of jobs of queue `name` in `s`.
pub open spec fn count_in_queue(s: Seq<JobView>, name: Seq<char>) -> nat
    decreases s.len(),
{
    if s.len() == 0 {
        0
    } else {
        count_in_queue(s.drop_last(), name) + if s.last().queue == name { 1nat } else { 0nat }
    }
}

/// The number of keys among `ks` whose job in `m` is of queue `name`.
pub open spec fn count_keys_in_queue(ks: Seq<u128>, m: Map<u128, JobView>, name: Seq<char>) -> nat
    decreases ks.len(),
{
    if ks.len() == 0 {
        0
    } else {
        count_keys_in_queue(ks.drop_last(), m, name) + if m[ks.last()].queue == name { 1nat } else { 0nat }
    }
}

/// Counts the jobs of queue `name` in `s`.
fn count_jobs(s: &[Job], name: &str) -> (r: usize)
    ensures
        r == count_in_queue(job_views(s@), name@),
{
    let mut n: usize = 0;
    let mut i: usize = 0;
    while i < s.len()
        invariant
            i <= s@.len(),
            n <= i,
            n == count_in_queue(job_views(s@).take(i as int), name@),
        decreases s@.len() - i,
    {
        proof {
            assert(job_views(s@).take(i + 1).drop_last() =~= job_views(s@).take(i as int));
        }
        if crate::text::str_eq(s[i].queue.as_str(), name) {
            n = n + 1;
        }
        i = i + 1;
    }
    assert(job_views(s@).take(s@.len() as int) =~= job_views(s@));
    n
}


impl Queue {
    /// The number of pending jobs of queue `name`.
    pub fn count_pending(&self, name: &str) -> (r: usize)
        ensures
            r == count_in_queue(self@.pending, name@),
    {
        let mut n: usize = 0;
        let mut i: usize = 0;
        while i < self.pending.len()
            invariant
                i <= self@.pending.len(),
                n <= i,
                n == count_in_queue(self@.pending.take(i as int), name@),
            decreases self@.pending.len() - i,
        {
            proof {
                assert(self@.pending.take(i + 1).drop_last() =~= self@.pending.take(i as int));
            }
            if crate::text::str_eq(self.pending[i].queue.as_str(), name) {
                n = n + 1;
            }
            i = i + 1;
        }
        assert(self@.pending.take(self@.pending.len() as int) =~= self@.pending);
        n
    }

    /// The number of dead-lettered jobs of queue `name`.
    pub fn count_dead_letter(&self, name: &str) -> (r: usize)
        ensures
            r == count_in_queue(self@.dead_letter, name@),
    {
        count_jobs(self.dead_letter.as_slice(), name)
    }

    /// The number of processing jobs of queue `name`.
    pub fn count_processing(&self, name: &str) -> (r: usize)
        ensures
            exists|ks: Seq<u128>|
                ks.no_duplicates() && ks.to_set() == self@.processing.dom() && r
                    == count_keys_in_queue(ks, self@.processing, name@),
    {
        let ghost ks = vstd::std_specs::hash::spec_keys_iter(&self.processing).remaining();
        let ghost m = self@.processing;
        let mut n: usize = 0;
        let total = self.processing.len();
        assert(ks.len() == total);
        for k in it: self.processing.keys()
            invariant
                it.seq() == ks,
                ks.len() == total,
                m == self@.processing,
                ks.no_duplicates(),
                ks.unref().to_set() == self.processing@.dom(),
                n <= it.index(),
                n == count_keys_in_queue(ks.unref().take(it.index()), m, name@),
        {
            let got = self.processing.get(k);
            proof {
                assert(k == it.seq()[it.index()]);
                assert(ks.unref()[it.index()] == *k);
                assert(ks.unref().to_set().contains(*k));
                assert(ks.unref().take(it.index() + 1).drop_last() =~= ks.unref().take(it.index()));
            }
            let j = got.unwrap();
            assert(m[*k] == j@);
            if crate::text::str_eq(j.queue.as_str(), name) {
                n = n + 1;
            }
        }
        proof {
            assert(ks.unref().take(ks.len() as int) =~= ks.unref());
            assert(ks.unref().no_duplicates()) by {
                assert forall|i: int, j: int| 0 <= i < j < ks.len() implies ks.unref()[i] != ks.unref()[j] by {
                    assert(ks[i] != ks[j]);
                }
            }
            assert(self.processing@.dom() =~= m.dom());
        }
        n
    }
}

impl Queue {
    /// The id of the job at the front of the pending line.
    pub fn pending_front_id(&self) -> (r: u128)
        requires
            self@.pending.len() > 0,
        ensures
            r == self@.pending[0].id,
    {
        self.pending[0].id
    }

    /// The position and id of the first pending job of queue `name`.
    pub fn first_in_queue(&self, name: &str) -> (r: Option<(usize, u128)>)
        ensures
            r matches Some((i, id)) ==> i < self@.pending.len() && self@.pending[i as int].queue == name@
                && self@.pending[i as int].id == id && forall|k: int|
                0 <= k < i ==> (#[trigger] self@.pending[k]).queue != name@,
            r is None ==> forall|k: int|
                0 <= k < self@.pending.len() ==> (#[trigger] self@.pending[k]).queue != name@,
    {
        match self.position_in_queue(name) {
            Some(i) => Some((i, self.pending[i].id)),
            None => None,
        }
    }

    /// A copy of processing job `id`.
    pub fn processing_job(&self, id: u128) -> (r: Option<Job>)
        ensures
            r is Some <==> self@.processing.contains_key(id),
            r matches Some(j) ==> j@ == self@.processing[id],
    {
        match self.processing.get(&id) {
            Some(j) => Some(j.duplicate()),
            None => None,
        }
    }
}

impl Queue {
    /// A copy of pending job `i`.
    pub fn pending_job(&self, i: usize) -> (r: Job)
        requires
            i < self@.pending.len(),
        ensures
            r@ == self@.pending[i as int],
    {
        self.pending[i].duplicate()
    }
}

/// Jobs leave the pending line in the order they joined it: a job due now
/// that is enqueued on an empty line is the one the next dequeue takes, and
/// it is then processing.
pub proof fn enqueue_then_dequeue(q0: QueueView, q1: QueueView, q2: QueueView, job: JobView, now: i64, taken: JobView)
    requires
        q0.pending.len() == 0,
        !(job.scheduled_at matches Some(t) && t > now),
        enqueued(q0, q1, job, now),
        moved_to_processing(q1, q2, 0, taken),
    ensures
        taken == with_status(job, JobStatus::Processing),
        q2.pending.len() == 0,
        q2.processing.contains_key(job.id),
        q2.processing[job.id] == taken,
{
    assert(q1.pending =~= seq![with_status(job, JobStatus::Pending)]);
    assert(q2.pending =~= Seq::<JobView>::empty());
}

/// Acknowledging a job taken for processing completes it: it leaves
/// processing, joins the completed jobs with its failure reason cleared.
pub proof fn ack_completes_taken_job(q1: QueueView, q2: QueueView, q3: QueueView, i: int, taken: JobView, done: JobView)
    requires
        moved_to_processing(q1, q2, i, taken),
        acked(q2, q3, taken.id, done),
    ensures
        done == with_status(taken, JobStatus::Completed),
        !q3.processing.contains_key(taken.id),
        q3.completed.last() == done,
        !q3.failure_reasons.contains_key(taken.id),
{
}

/// Each failed attempt counts once; a job is dead-lettered exactly when its
/// attempts reach the maximum, and retried otherwise.
pub proof fn nack_counts_attempts(j: JobView)
    requires
        j.attempts < u32::MAX,
    ensures
        nacked_job(j).attempts == j.attempts + 1,
        (nacked_job(j).status == JobStatus::DeadLetter) <==> j.attempts + 1 >= j.max_attempts,
        (nacked_job(j).status == JobStatus::Pending) <==> j.attempts + 1 < j.max_attempts,
{
}

/// Promotion leaves no timer that is due: once ready jobs are promoted at
/// `now`, every remaining timer is later than `now`, and the timers stay in
/// order.
pub proof fn promotion_leaves_no_due_timer(
    timers: Seq<(i64, u128)>,
    scheduled: Map<u128, JobView>,
    pending: Seq<JobView>,
    now: i64,
)
    requires
        timers_sorted(timers),
    ensures
        forall|i: int| 0 <= i < promoted(timers, scheduled, pending, now).0.len() ==> (#[trigger] promoted(timers, scheduled, pending, now).0[i]).0 > now,
        timers_sorted(promoted(timers, scheduled, pending, now).0),
    decreases timers.len(),
{
    if timers.len() == 0 || timers[0].0 > now {
        assert forall|i: int| 0 <= i < timers.len() implies (#[trigger] timers[i]).0 > now by {
            if i > 0 {
                assert(!timer_lt(timers[i], timers[0]));
            }
        }
    } else {
        let rest = timers.drop_first();
        assert(timers_sorted(rest)) by {
            assert forall|i: int, j: int| 0 <= i < j < rest.len() implies !timer_lt(#[trigger] rest[j], #[trigger] rest[i]) by {
                assert(rest[i] == timers[i + 1] && rest[j] == timers[j + 1]);
            }
        }
        let e = timers[0];
        if scheduled.contains_key(e.1) {
            let j = JobView { scheduled_at: Some(e.0), ..scheduled[e.1] };
            promotion_leaves_no_due_timer(rest, scheduled.remove(e.1), pending.push(j), now);
        } else {
            promotion_leaves_no_due_timer(rest, scheduled, pending, now);
        }
    }
}

} // verus!
