//! The decisions of the queue's WebSocket API.
//!
//! A request is handled in steps around the write-ahead log: `plan_request`
//! answers it outright or names the event to log; once the event is logged,
//! `apply_logged` applies it to the queue; `conclude` turns the outcome
//! (including a failure to log or to compact) into the answer, and the event
//! to broadcast to subscribers, if any.

use vstd::prelude::*;
use crate::queue::{
    acked, dequeued_id, enqueued, event_applied, nacked, Job, JobStatus, JobView, Queue, QueueError, QueueView,
    WalEvent,
};
use crate::queue_runtime::{acquired, released, QueueRuntime, QueueStatsView, RuntimeView};
use crate::text::{concat, owned};

verus! {

/// A request's payload: JSON `null`, or the JSON text of any other value.
pub enum JsonPayload {
    Null,
    Json(Vec<u8>),
}

/// A request of the API.
pub enum QueueRequest {
    Enqueue { queue: String, payload: JsonPayload, max_attempts: u32 },
    Schedule { queue: String, payload: JsonPayload, run_at: i64, max_attempts: u32 },
    Cron { queue: String, payload: JsonPayload, expression: String, max_attempts: u32 },
    Dequeue { queue: Option<String> },
    Ack { id: u128 },
    Heartbeat { id: u128 },
    Nack { id: u128, reason: String },
    Subscribe { queue: String },
    Stats,
}

/// An answer of the API, or an event pushed to subscribers.
pub enum QueueResponse {
    Enqueued { job: Job },
    Dequeued { job: Option<Job> },
    Acked { job: Job },
    HeartbeatRecorded { id: u128 },
    Nacked { job: Job },
    Subscribed { queue: String },
    Stats { pending: usize, processing: usize, scheduled: usize, completed: usize, dead_letter: usize },
    QueueStats { stats: QueueStatsView },
    CronRegistered { queue: String, expression: String },
    Event { queue: String, kind: String, job: Job },
    Error { message: String },
}

/// What follows once the logged event has been applied.
pub enum Then {
    /// Answer `Enqueued`; with `broadcast`, also tell subscribers.
    Enqueued { job: Job, broadcast: bool },
    /// Answer `Dequeued`; a job taken under a permit is tracked with it.
    Dequeued { permit: Option<(String, u64)> },
    /// Answer `Acked` and count the completion.
    Acked { id: u128 },
    /// Answer `Nacked` and stop tracking the job.
    Nacked { id: u128 },
}

/// The first step's outcome.
pub enum Planned {
    /// Answer now.
    Reply(QueueResponse),
    /// Log the event, then apply it and conclude.
    Log(WalEvent, Then),
    /// Parse the cron expression and register the recurring job.
    RegisterCron { queue: String, payload: Vec<u8>, expression: String, max_attempts: u32 },
}

/// The request handler's state: the queue and the worker bookkeeping.
pub struct QueueService {
    pub queue: Queue,
    pub runtime: QueueRuntime,
}

/// The JSON text of `null`.
pub open spec fn null_json() -> Seq<u8> {
    seq![110u8, 117u8, 108u8, 108u8]
}

/// The message for a null payload.
pub open spec fn null_payload_message() -> Seq<char> {
    "payload cannot be null"@
}

/// The message for a job that heartbeats are not tracked for.
pub open spec fn untracked_message(id: u128) -> Seq<char> {
    "job "@ + crate::uuid_text::uuid_text(id) + " is not being tracked for heartbeat"@
}

/// The id of the job a dequeue of `name` (any queue when `None`) takes.
pub open spec fn dequeue_pick(pending: Seq<JobView>, name: Option<Seq<char>>) -> Option<int> {
    match name {
        None => if pending.len() > 0 {
            Some(0)
        } else {
            None
        },
        Some(n) => if exists|i: int| 0 <= i < pending.len() && pending[i].queue == n {
            Some(
                choose|i: int|
                    0 <= i < pending.len() && pending[i].queue == n && forall|k: int|
                        0 <= k < i ==> (#[trigger] pending[k]).queue != n,
            )
        } else {
            None
        },
    }
}

/// The job of a request to run `queue` with JSON `payload`.
pub open spec fn requested_job(
    id: u128,
    queue: Seq<char>,
    payload: Seq<u8>,
    max_attempts: u32,
    created_at: i64,
    scheduled_at: Option<i64>,
) -> JobView {
    JobView {
        id,
        queue,
        payload,
        status: JobStatus::Pending,
        attempts: 0,
        max_attempts,
        created_at,
        scheduled_at,
    }
}

fn error_response(message: &str) -> (r: QueueResponse)
    ensures
        r matches QueueResponse::Error { message: m } && m@ == message@,
{
    QueueResponse::Error { message: owned(message) }
}

proof fn lemma_first_in_queue(pending: Seq<JobView>, n: Seq<char>, i: int)
    requires
        0 <= i < pending.len(),
        pending[i].queue == n,
        forall|k: int| 0 <= k < i ==> (#[trigger] pending[k]).queue != n,
    ensures
        dequeue_pick(pending, Some(n)) == Some(i),
{
    let j = choose|j: int|
        0 <= j < pending.len() && pending[j].queue == n && forall|k: int|
            0 <= k < j ==> (#[trigger] pending[k]).queue != n;
    if j < i {
        assert(pending[j].queue != n);
    }
    if i < j {
        assert(pending[i].queue != n);
    }
}

impl Queue {
    /// The id of the job that a dequeue of `name` (any queue when `None`)
    /// would take.
    pub fn dequeue_candidate(&self, name: Option<&str>) -> (r: Option<u128>)
        ensures
            match dequeue_pick(
                self@.pending,
                match name {
                    Some(n) => Some(n@),
                    None => None,
                },
            ) {
                Some(i) => r == Some(self@.pending[i].id),
                None => r is None,
            },
    {
        match name {
            None => {
                if self.pending_len() > 0 {
                    Some(self.pending_front_id())
                } else {
                    None
                }
            },
            Some(n) => {
                match self.first_in_queue(n) {
                    Some((i, id)) => {
                        proof {
                            lemma_first_in_queue(self@.pending, n@, i as int);
                        }
                        Some(id)
                    },
                    None => None,
                }
            },
        }
    }
}

/// The JSON bytes a payload stands for.
pub open spec fn payload_bytes(p: JsonPayload) -> Seq<u8> {
    match p {
        JsonPayload::Null => null_json(),
        JsonPayload::Json(b) => b@,
    }
}

fn json_bytes(p: JsonPayload) -> (r: Vec<u8>)
    ensures
        r@ == payload_bytes(p),
{
    match p {
        JsonPayload::Null => {
            let r: Vec<u8> = vec![110u8, 117u8, 108u8, 108u8];
            assert(r@ =~= null_json());
            r
        },
        JsonPayload::Json(b) => b,
    }
}

/// The queue figures of the `Stats` answer.
pub open spec fn stats_of(q: QueueView, r: QueueResponse) -> bool {
    r matches QueueResponse::Stats { pending, processing, scheduled, completed, dead_letter } && pending
        == q.pending.len() && processing == q.processing.len() && scheduled == q.scheduled.len()
        && completed == q.completed.len() && dead_letter == q.dead_letter.len()
}

/// True when `p` logs enqueuing the requested job, answering by `broadcast`.
pub open spec fn plans_enqueue(p: Planned, j: JobView, broadcast: bool) -> bool {
    p matches Planned::Log(WalEvent::Enqueue(job), Then::Enqueued { job: job2, broadcast: b }) && job@ == j
        && job2@ == j && b == broadcast
}

impl QueueService {
    /// The well-formedness of the state.
    pub open spec fn wf(&self) -> bool {
        self.queue.wf() && self.runtime.wf()
    }

    /// First step of a request: answers it, or names the event to log.
    /// `new_id` and `wall_now` make the job of an enqueue; `mono_now` dates
    /// a heartbeat.
    pub fn plan_request(&mut self, req: QueueRequest, new_id: u128, wall_now: i64, mono_now: u64) -> (r: Planned)
        requires
            old(self).wf(),
        ensures
            final(self).wf(),
            final(self).queue@ == old(self).queue@,
            match req {
                QueueRequest::Enqueue { queue, payload, max_attempts } => final(self).runtime@ == old(self).runtime@
                    && match payload {
                    JsonPayload::Null => (r matches Planned::Reply(QueueResponse::Error { message })
                        && message@ == null_payload_message()),
                    JsonPayload::Json(b) => plans_enqueue(
                        r,
                        requested_job(new_id, queue@, b@, max_attempts, wall_now, None),
                        true,
                    ),
                },
                QueueRequest::Schedule { queue, payload, run_at, max_attempts } => final(self).runtime@
                    == old(self).runtime@ && match payload {
                    JsonPayload::Null => (r matches Planned::Reply(QueueResponse::Error { message })
                        && message@ == null_payload_message()),
                    JsonPayload::Json(b) => plans_enqueue(
                        r,
                        requested_job(new_id, queue@, b@, max_attempts, wall_now, Some(run_at)),
                        false,
                    ),
                },
                QueueRequest::Cron { queue, payload, expression, max_attempts } => final(self).runtime@
                    == old(self).runtime@ && (r matches Planned::RegisterCron {
                    queue: q,
                    payload: b,
                    expression: e,
                    max_attempts: m,
                } && q@ == queue@ && b@ == payload_bytes(payload) && e@ == expression@ && m == max_attempts),
                QueueRequest::Dequeue { queue: None } => final(self).runtime@ == old(self).runtime@
                    && match dequeue_pick(old(self).queue@.pending, None) {
                    None => r matches Planned::Reply(QueueResponse::Dequeued { job: None }),
                    Some(i) => (r matches Planned::Log(WalEvent::Dequeue(id), Then::Dequeued { permit: None })
                        && id == old(self).queue@.pending[i].id),
                },
                QueueRequest::Dequeue { queue: Some(name) } => {
                    let a = acquired(
                        old(self).runtime@.semaphores,
                        old(self).runtime@.next_generation,
                        old(self).runtime@.default_concurrency,
                        name@,
                    );
                    &&& final(self).runtime@.next_generation == a.1
                    &&& final(self).runtime@.active == old(self).runtime@.active
                    &&& final(self).runtime@.completions == old(self).runtime@.completions
                    &&& match a.2 {
                        None => final(self).runtime@.semaphores == a.0 && r matches Planned::Reply(
                            QueueResponse::Dequeued { job: None },
                        ),
                        Some(g) => match dequeue_pick(old(self).queue@.pending, Some(name@)) {
                            None => final(self).runtime@.semaphores == released(a.0, g) && r matches Planned::Reply(
                                QueueResponse::Dequeued { job: None },
                            ),
                            Some(i) => final(self).runtime@.semaphores == a.0 && (r matches Planned::Log(
                                WalEvent::Dequeue(id),
                                Then::Dequeued { permit: Some((q, g2)) },
                            ) && id == old(self).queue@.pending[i].id && q@ == name@ && g2 == g),
                        },
                    }
                },
                QueueRequest::Ack { id } => final(self).runtime@ == old(self).runtime@ && (r matches Planned::Log(
                    WalEvent::Ack(i),
                    Then::Acked { id: i2 },
                ) && i == id && i2 == id),
                QueueRequest::Heartbeat { id } => if old(self).runtime@.active.contains_key(id) {
                    final(self).runtime@ == (RuntimeView {
                        active: old(self).runtime@.active.insert(
                            id,
                            (old(self).runtime@.active[id].0, mono_now, old(self).runtime@.active[id].2),
                        ),
                        ..old(self).runtime@
                    }) && (r matches Planned::Reply(QueueResponse::HeartbeatRecorded { id: i }) && i == id)
                } else {
                    final(self).runtime@ == old(self).runtime@ && (r matches Planned::Reply(
                        QueueResponse::Error { message },
                    ) && message@ == untracked_message(id))
                },
                QueueRequest::Nack { id, reason } => final(self).runtime@ == old(self).runtime@ && (r matches Planned::Log(
                    WalEvent::Nack(i, why),
                    Then::Nacked { id: i2 },
                ) && i == id && why@ == reason@ && i2 == id),
                QueueRequest::Subscribe { queue } => final(self).runtime@ == old(self).runtime@ && (r matches Planned::Reply(
                    QueueResponse::Subscribed { queue: q },
                ) && q@ == queue@),
                QueueRequest::Stats => final(self).runtime@ == old(self).runtime@ && (r matches Planned::Reply(resp)
                    && stats_of(old(self).queue@, resp)),
            },
    {
        match req {
            QueueRequest::Enqueue { queue, payload, max_attempts } => match payload {
                JsonPayload::Null => Planned::Reply(error_response("payload cannot be null")),
                JsonPayload::Json(b) => {
                    let job = Job::with_identity(new_id, queue.as_str(), b, max_attempts, wall_now);
                    let copy = job.duplicate();
                    Planned::Log(WalEvent::Enqueue(job), Then::Enqueued { job: copy, broadcast: true })
                },
            },
            QueueRequest::Schedule { queue, payload, run_at, max_attempts } => match payload {
                JsonPayload::Null => Planned::Reply(error_response("payload cannot be null")),
                JsonPayload::Json(b) => {
                    let mut job = Job::with_identity(new_id, queue.as_str(), b, max_attempts, wall_now);
                    job.scheduled_at = Some(run_at);
                    let copy = job.duplicate();
                    Planned::Log(WalEvent::Enqueue(job), Then::Enqueued { job: copy, broadcast: false })
                },
            },
            QueueRequest::Cron { queue, payload, expression, max_attempts } => {
                let b = json_bytes(payload);
                Planned::RegisterCron { queue, payload: b, expression, max_attempts }
            },
            QueueRequest::Dequeue { queue: None } => match self.queue.dequeue_candidate(None) {
                None => Planned::Reply(QueueResponse::Dequeued { job: None }),
                Some(id) => Planned::Log(WalEvent::Dequeue(id), Then::Dequeued { permit: None }),
            },
            QueueRequest::Dequeue { queue: Some(name) } => {
                match self.runtime.acquire_permit(name.as_str()) {
                    None => Planned::Reply(QueueResponse::Dequeued { job: None }),
                    Some(g) => match self.queue.dequeue_candidate(Some(name.as_str())) {
                        None => {
                            self.runtime.release_permit(g);
                            Planned::Reply(QueueResponse::Dequeued { job: None })
                        },
                        Some(id) => Planned::Log(
                            WalEvent::Dequeue(id),
                            Then::Dequeued { permit: Some((name, g)) },
                        ),
                    },
                }
            },
            QueueRequest::Ack { id } => Planned::Log(WalEvent::Ack(id), Then::Acked { id }),
            QueueRequest::Heartbeat { id } => {
                if self.runtime.heartbeat(id, mono_now) {
                    Planned::Reply(QueueResponse::HeartbeatRecorded { id })
                } else {
                    let a = concat("job ", crate::uuid_text::uuid_string(id).as_str());
                    let m = concat(a.as_str(), " is not being tracked for heartbeat");
                    Planned::Reply(QueueResponse::Error { message: m })
                }
            },
            QueueRequest::Nack { id, reason } => Planned::Log(WalEvent::Nack(id, reason), Then::Nacked { id }),
            QueueRequest::Subscribe { queue } => Planned::Reply(QueueResponse::Subscribed { queue }),
            QueueRequest::Stats => Planned::Reply(
                QueueResponse::Stats {
                    pending: self.queue.pending_len(),
                    processing: self.queue.processing_len(),
                    scheduled: self.queue.scheduled_len(),
                    completed: self.queue.completed_len(),
                    dead_letter: self.queue.dead_letter_len(),
                },
            ),
        }
    }
}

/// The message for a cron expression that does not parse.
pub open spec fn cron_error_message(err: Seq<char>) -> Seq<char> {
    "invalid cron expression: "@ + err
}

/// The message for a cron expression with no run ahead.
pub open spec fn cron_exhausted_message() -> Seq<char> {
    "cron expression has no future run time"@
}

/// The answer to a cron registration, given the expression's parse and next
/// run time: `Err` with the parser's message, `Ok(None)` when it never runs
/// again.
pub fn cron_registered(queue: String, expression: String, next_run: Result<Option<i64>, String>) -> (r: QueueResponse)
    ensures
        match next_run {
            Err(e) => r matches QueueResponse::Error { message } && message@ == cron_error_message(e@),
            Ok(None) => r matches QueueResponse::Error { message } && message@ == cron_exhausted_message(),
            Ok(Some(_)) => r matches QueueResponse::CronRegistered { queue: q, expression: e } && q@
                == queue@ && e@ == expression@,
        },
{
    match next_run {
        Err(e) => QueueResponse::Error { message: concat("invalid cron expression: ", e.as_str()) },
        Ok(None) => error_response("cron expression has no future run time"),
        Ok(Some(_)) => QueueResponse::CronRegistered { queue, expression },
    }
}

/// The semaphores after tracked job `id` gives back its permit.
pub open spec fn released_for(rt: RuntimeView, id: u128) -> Seq<crate::queue_runtime::SemView> {
    if rt.active.contains_key(id) {
        released(rt.semaphores, rt.active[id].2)
    } else {
        rt.semaphores
    }
}

/// The kind of event told to subscribers of a newly enqueued job.
pub open spec fn enqueued_kind() -> Seq<char> {
    "enqueued"@
}

impl QueueService {
    /// Second step: applies a logged event to the queue at `wall_now`.
    /// Gives the job a dequeue took, or the job an acknowledgement settled.
    pub fn apply_logged(&mut self, event: WalEvent, wall_now: i64) -> (r: Result<Option<Job>, QueueError>)
        requires
            old(self).wf(),
        ensures
            final(self).wf(),
            final(self).runtime == old(self).runtime,
            event_applied(old(self).queue@, event, wall_now, final(self).queue@),
            match event {
                WalEvent::Enqueue(job) => r matches Ok(None) && enqueued(old(self).queue@, final(self).queue@, job@, wall_now),
                WalEvent::Dequeue(id) => dequeued_id(old(self).queue@, final(self).queue@, id) && match r {
                    Ok(Some(j)) => final(self).queue@.processing.contains_key(id) && j@ == final(self).queue@.processing[id],
                    Ok(None) => !final(self).queue@.processing.contains_key(id),
                    Err(_) => false,
                },
                WalEvent::Ack(id) => if old(self).queue@.processing.contains_key(id) {
                    r matches Ok(Some(j)) && acked(old(self).queue@, final(self).queue@, id, j@)
                } else {
                    r == Err::<Option<Job>, QueueError>(QueueError::JobNotProcessing(id)) && final(self).queue@ == old(self).queue@
                },
                WalEvent::Nack(id, reason) => if old(self).queue@.processing.contains_key(id) {
                    r matches Ok(Some(j)) && nacked(old(self).queue@, final(self).queue@, id, reason@, j@)
                } else {
                    r == Err::<Option<Job>, QueueError>(QueueError::JobNotProcessing(id)) && final(self).queue@ == old(self).queue@
                },
            },
    {
        match event {
            WalEvent::Enqueue(job) => {
                self.queue.enqueue_at(job, wall_now);
                Ok(None)
            },
            WalEvent::Dequeue(id) => {
                let _ = self.queue.apply_event(WalEvent::Dequeue(id), wall_now);
                Ok(self.queue.processing_job(id))
            },
            WalEvent::Ack(id) => match self.queue.ack(id) {
                Ok(j) => Ok(Some(j)),
                Err(e) => Err(e),
            },
            WalEvent::Nack(id, reason) => match self.queue.nack(id, reason.as_str()) {
                Ok(j) => Ok(Some(j)),
                Err(e) => Err(e),
            },
        }
    }

    /// Last step: the answer, and the event for subscribers, given how the
    /// logged request went (`Err` with the message of a failure to log, to
    /// apply or to compact).  `mono_now` dates tracking and completions.
    pub fn conclude(&mut self, then: Then, outcome: Result<Option<Job>, String>, mono_now: u64) -> (r: (
        QueueResponse,
        Option<QueueResponse>,
    ))
        requires
            old(self).wf(),
            (then is Acked || then is Nacked) ==> !(outcome matches Ok(None)),
        ensures
            final(self).wf(),
            final(self).queue@ == old(self).queue@,
            final(self).runtime@.next_generation == old(self).runtime@.next_generation,
            match outcome {
                Err(msg) => (r.0 matches QueueResponse::Error { message } && message@ == msg@) && r.1 is None
                    && final(self).runtime@.active == old(self).runtime@.active
                    && final(self).runtime@.completions == old(self).runtime@.completions
                    && final(self).runtime@.semaphores == match then {
                    Then::Dequeued { permit: Some((_, g)) } => released(old(self).runtime@.semaphores, g),
                    _ => old(self).runtime@.semaphores,
                },
                Ok(o) => match then {
                    Then::Enqueued { job, broadcast } => final(self).runtime@ == old(self).runtime@
                        && (r.0 matches QueueResponse::Enqueued { job: j } && j@ == job@)
                        && if broadcast {
                        r.1 matches Some(QueueResponse::Event { queue, kind, job: j }) && queue@ == job@.queue
                            && kind@ == enqueued_kind() && j@ == job@
                    } else {
                        r.1 is None
                    },
                    Then::Dequeued { permit } => r.1 is None && (r.0 matches QueueResponse::Dequeued { job: j }
                        && match (o, j) {
                        (Some(a), Some(b)) => a@ == b@,
                        (None, None) => true,
                        _ => false,
                    }) && match (permit, o) {
                        (Some((q, g)), Some(job)) => final(self).runtime@.active == old(self).runtime@.active.insert(
                            job@.id,
                            (q@, mono_now, g),
                        ) && final(self).runtime@.semaphores == if old(self).runtime@.active.contains_key(job@.id) {
                            released(old(self).runtime@.semaphores, old(self).runtime@.active[job@.id].2)
                        } else {
                            old(self).runtime@.semaphores
                        } && final(self).runtime@.completions == old(self).runtime@.completions,
                        (Some((_, g)), None) => final(self).runtime@ == (RuntimeView {
                            semaphores: released(old(self).runtime@.semaphores, g),
                            ..old(self).runtime@
                        }),
                        (None, _) => final(self).runtime@ == old(self).runtime@,
                    },
                    Then::Acked { id } => r.1 is None && (r.0 matches QueueResponse::Acked { job: j } && o matches Some(
                        a,
                    ) && j@ == a@) && final(self).runtime@.active == old(self).runtime@.active.remove(id)
                        && final(self).runtime@.semaphores == released_for(old(self).runtime@, id)
                        && final(self).runtime@.completions == if old(self).runtime@.active.contains_key(id) {
                        crate::queue_runtime::pruned(
                            old(self).runtime@.completions.push((mono_now, old(self).runtime@.active[id].0)),
                            mono_now,
                        )
                    } else {
                        old(self).runtime@.completions
                    },
                    Then::Nacked { id } => r.1 is None && (r.0 matches QueueResponse::Nacked { job: j } && o matches Some(
                        a,
                    ) && j@ == a@) && final(self).runtime@.active == old(self).runtime@.active.remove(id)
                        && final(self).runtime@.semaphores == released_for(old(self).runtime@, id)
                        && final(self).runtime@.completions == old(self).runtime@.completions,
                },
            },
    {
        match outcome {
            Err(msg) => {
                match then {
                    Then::Dequeued { permit: Some((_, g)) } => {
                        self.runtime.release_permit(g);
                    },
                    _ => {},
                }
                (QueueResponse::Error { message: msg }, None)
            },
            Ok(o) => match then {
                Then::Enqueued { job, broadcast } => {
                    if broadcast {
                        let event = QueueResponse::Event {
                            queue: job.queue.clone(),
                            kind: owned("enqueued"),
                            job: job.duplicate(),
                        };
                        (QueueResponse::Enqueued { job }, Some(event))
                    } else {
                        (QueueResponse::Enqueued { job }, None)
                    }
                },
                Then::Dequeued { permit } => {
                    match permit {
                        Some((q, g)) => match &o {
                            Some(job) => {
                                self.runtime.register_processing(q.as_str(), job.id, g, mono_now);
                            },
                            None => {
                                self.runtime.release_permit(g);
                            },
                        },
                        None => {},
                    }
                    (QueueResponse::Dequeued { job: o }, None)
                },
                Then::Acked { id } => {
                    self.runtime.finish_job(id, true, mono_now);
                    match o {
                        Some(job) => (QueueResponse::Acked { job }, None),
                        None => {
                            proof {
                                assert(false);
                            }
                            (QueueResponse::Dequeued { job: None }, None)
                        },
                    }
                },
                Then::Nacked { id } => {
                    self.runtime.finish_job(id, false, mono_now);
                    match o {
                        Some(job) => (QueueResponse::Nacked { job }, None),
                        None => {
                            proof {
                                assert(false);
                            }
                            (QueueResponse::Dequeued { job: None }, None)
                        },
                    }
                },
            },
        }
    }
}

/// The lowercase name of a status.
pub open spec fn status_text(s: JobStatus) -> Seq<char> {
    match s {
        JobStatus::Pending => "pending"@,
        JobStatus::Processing => "processing"@,
        JobStatus::Completed => "completed"@,
        JobStatus::Failed => "failed"@,
        JobStatus::DeadLetter => "deadletter"@,
    }
}

/// The lowercase name of a status.
pub fn status_name(s: JobStatus) -> (r: String)
    ensures
        r@ == status_text(s),
{
    match s {
        JobStatus::Pending => owned("pending"),
        JobStatus::Processing => owned("processing"),
        JobStatus::Completed => owned("completed"),
        JobStatus::Failed => owned("failed"),
        JobStatus::DeadLetter => owned("deadletter"),
    }
}

/// std's `String::from_utf8_lossy` of `b`.
pub uninterp spec fn utf8_lossy_text(b: Seq<u8>) -> Seq<char>;

/// RFC 3339 text of a UTC time given in microseconds since the epoch.
pub uninterp spec fn rfc3339_text(micros: i64) -> Seq<char>;

/// `String::from_utf8_lossy`.  Claimed: the result is `utf8_lossy_text(b@)`,
/// and the decoded text itself when `b` is valid UTF-8.
#[verifier::external_body]
fn utf8_lossy(b: &[u8]) -> (r: String)
    ensures
        r@ == utf8_lossy_text(b@),
        vstd::utf8::valid_utf8(b@) ==> r@ == vstd::utf8::decode_utf8(b@),
{
    String::from_utf8_lossy(b).to_string()
}

/// The first microsecond chrono can represent: 1 January of year -262143.
pub const CHRONO_MIN_MICROS: i64 = -8_334_601_228_800_000_000;

/// The last microsecond chrono can represent: the end of 31 December of
/// year 262142.
pub const CHRONO_MAX_MICROS: i64 = 8_210_266_876_799_999_999;

/// True when chrono can represent the time `micros` after the epoch.
pub open spec fn in_chrono_range(micros: i64) -> bool {
    CHRONO_MIN_MICROS <= micros <= CHRONO_MAX_MICROS
}

/// `chrono::DateTime::<Utc>::from_timestamp_micros` then `to_rfc3339`.
/// Claimed: a time comes back exactly when its day falls in chrono's years
/// (-262143 to 262142), and its text is `rfc3339_text(micros)`.
#[verifier::external_body]
fn rfc3339(micros: i64) -> (r: Option<String>)
    ensures
        r is Some <==> in_chrono_range(micros),
        r matches Some(s) ==> s@ == rfc3339_text(micros),
{
    match chrono::DateTime::from_timestamp_micros(micros) {
        Some(t) => Some(t.to_rfc3339()),
        None => None,
    }
}

/// A job as the JavaScript binding shows it.
pub struct JsQueueJob {
    pub id: String,
    pub queue: String,
    pub payload_json: String,
    pub status: String,
    pub attempts: u32,
    pub max_attempts: u32,
    pub created_at: String,
    pub scheduled_at: Option<String>,
}

/// Queue figures as the JavaScript binding shows them.
pub struct JsQueueStats {
    pub pending: u32,
    pub processing: u32,
    pub scheduled: u32,
    pub completed: u32,
    pub dead_letter: u32,
}

impl JsQueueJob {
    /// The binding's view of `job`: text id, payload decoded leniently,
    /// lowercase status, RFC 3339 times (empty for times out of chrono's
    /// range).
    pub fn from_job(job: Job) -> (r: JsQueueJob)
        ensures
            r.id@ == crate::uuid_text::uuid_text(job.id),
            r.queue@ == job.queue@,
            r.payload_json@ == utf8_lossy_text(job.payload@),
            r.status@ == status_text(job.status),
            r.attempts == job.attempts,
            r.max_attempts == job.max_attempts,
            r.created_at@ == if in_chrono_range(job.created_at) { rfc3339_text(job.created_at) } else { Seq::empty() },
            match job.scheduled_at {
                None => r.scheduled_at is None,
                Some(t) => r.scheduled_at matches Some(s) && s@ == if in_chrono_range(t) { rfc3339_text(t) } else { Seq::empty() },
            },
    {
        let created_at = match rfc3339(job.created_at) {
            Some(s) => s,
            None => String::new(),
        };
        let scheduled_at = match job.scheduled_at {
            None => None,
            Some(t) => match rfc3339(t) {
                Some(s) => Some(s),
                None => Some(String::new()),
            },
        };
        JsQueueJob {
            id: crate::uuid_text::uuid_string(job.id),
            queue: job.queue,
            payload_json: utf8_lossy(job.payload.as_slice()),
            status: status_name(job.status),
            attempts: job.attempts,
            max_attempts: job.max_attempts,
            created_at,
            scheduled_at,
        }
    }
}

/// Where the queue's WebSocket API listens.
pub struct QueueWsConfig {
    pub host: String,
    pub port: u16,
}

impl Default for QueueWsConfig {
    fn default() -> (r: Self)
        ensures
            r.host@ == "127.0.0.1"@,
            r.port == 6380,
    {
        QueueWsConfig { host: owned("127.0.0.1"), port: 6380 }
    }
}

impl QueueWsConfig {
    /// `host:port`.
    pub fn addr(&self) -> (r: String)
        ensures
            r@ == self.host@ + ":"@ + crate::text::decimal(self.port as nat),
    {
        let a = concat(self.host.as_str(), ":");
        let p = crate::text::decimal_string(self.port as u64);
        concat(a.as_str(), p.as_str())
    }
}

impl Queue {
    /// The jobs that joined the pending line after its first `before`, the
    /// newest first (those a promotion just moved there).
    pub fn recently_promoted(&self, before: usize) -> (r: Vec<Job>)
        ensures
            before < self@.pending.len() ==> crate::queue::job_views(r@) == self@.pending.skip(before as int).reverse(),
            before >= self@.pending.len() ==> r@.len() == 0,
    {
        let mut out: Vec<Job> = Vec::new();
        let n = self.pending_len();
        if before >= n {
            return out;
        }
        let mut i: usize = n;
        while i > before
            invariant
                before <= i <= n,
                n == self@.pending.len(),
                crate::queue::job_views(out@) == self@.pending.subrange(i as int, n as int).reverse(),
            decreases i,
        {
            let j = self.pending_job(i - 1);
            let ghost prev = crate::queue::job_views(out@);
            out.push(j);
            assert(crate::queue::job_views(out@) =~= prev.push(self@.pending[i - 1]));
            assert(self@.pending.subrange(i - 1, n as int).reverse() =~= self@.pending.subrange(i as int, n as int).reverse().push(self@.pending[i - 1]));
            i = i - 1;
        }
        assert(self@.pending.subrange(before as int, n as int) =~= self@.pending.skip(before as int));
        out
    }
}

} // verus!
