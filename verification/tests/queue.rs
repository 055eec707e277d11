use pulsur::queue::{Job, JobStatus, Queue, QueueError, WalEvent};
use pulsur::queue_runtime::{QueueRuntime, WorkerPoolConfig};
use pulsur::queue_service::{
    cron_registered, CHRONO_MAX_MICROS, CHRONO_MIN_MICROS, JsQueueJob, JsonPayload, Planned, QueueRequest, QueueResponse, QueueService,
    QueueWsConfig, Then,
};
use pulsur::uuid_text::uuid_string;
use pulsur::wal::{
    encode_record, highest_segment_index, next_segment_name, order_segments, parse_segment_index,
    segment_sort_key, split_records, WalError,
};

fn make_job(queue: &str, payload: &[u8], max_attempts: u32) -> Job {
    Job::new(queue, payload.to_vec(), max_attempts)
}

#[test]
fn core_queue_starts_empty() {
    let queue = Queue::new();

    assert_eq!(queue.pending_len(), 0);
    assert_eq!(queue.processing_len(), 0);
    assert_eq!(queue.completed_len(), 0);
    assert_eq!(queue.dead_letter_len(), 0);
    assert!(queue.is_empty());
}

#[test]
fn scheduled_job_keeps_timestamp() {
    let when = chrono::Utc::now().timestamp_micros() + 5 * 60 * 1_000_000;
    let job = Job::scheduled("reports", b"{}".to_vec(), 4, when);

    assert_eq!(job.scheduled_at, Some(when));
    assert_eq!(job.status, JobStatus::Pending);
}

#[test]
fn dequeue_moves_job_to_processing() {
    let mut queue = Queue::new();
    let job = make_job("jobs", b"1", 3);
    let id = job.id;
    queue.enqueue(job);

    let dequeued = queue.dequeue().expect("job should dequeue");

    assert_eq!(dequeued.id, id);
    assert_eq!(dequeued.status, JobStatus::Processing);
    assert_eq!(queue.pending_len(), 0);
    assert_eq!(queue.processing_len(), 1);
}

#[test]
fn ack_marks_job_completed() {
    let mut queue = Queue::new();
    let job = make_job("jobs", b"1", 3);
    let id = job.id;
    queue.enqueue(job);
    let _ = queue.dequeue();

    let acked = queue.ack(id).expect("ack should succeed");

    assert_eq!(acked.status, JobStatus::Completed);
    assert_eq!(queue.completed_len(), 1);
    assert_eq!(queue.processing_len(), 0);
}

#[test]
fn nack_requeues_before_dead_letter() {
    let mut queue = Queue::new();
    let job = make_job("jobs", b"1", 2);
    let id = job.id;
    queue.enqueue(job);
    let _ = queue.dequeue();

    let nacked = queue.nack(id, "retry").expect("nack should succeed");

    assert_eq!(nacked.status, JobStatus::Pending);
    assert_eq!(nacked.attempts, 1);
    assert_eq!(queue.pending_len(), 1);
    assert_eq!(queue.dead_letter_len(), 0);
}

#[test]
fn nack_dead_letters_when_attempts_exhausted() {
    let mut queue = Queue::new();
    let job = make_job("jobs", b"1", 1);
    let id = job.id;
    queue.enqueue(job);
    let _ = queue.dequeue();

    let nacked = queue.nack(id, "fatal").expect("nack should succeed");

    assert_eq!(nacked.status, JobStatus::DeadLetter);
    assert_eq!(queue.dead_letter_len(), 1);
    assert_eq!(queue.failure_reason(id), Some("fatal"));
}

#[test]
fn wal_uses_length_prefixed_records() {
    let payload = b"abc-event".to_vec();
    let framed = encode_record(&payload).expect("record should frame");
    let length = u32::from_le_bytes([framed[0], framed[1], framed[2], framed[3]]) as usize;

    assert_eq!(length, payload.len());
    assert_eq!(&framed[4..], &payload[..]);
}

#[test]
fn replay_ignores_truncated_tail_record_after_simulated_crash() {
    let first = b"first-event".to_vec();
    let second = b"second-event".to_vec();
    let mut log = encode_record(&first).unwrap();
    let second_framed = encode_record(&second).unwrap();
    log.extend_from_slice(&second_framed[..4 + second.len() / 2]);

    let records = split_records(&log);

    assert_eq!(records.len(), 1);
    assert_eq!(records[0], first);
}

#[test]
fn interrupted_enqueue_keeps_all_committed_jobs_after_restart() {
    let committed = b"committed".to_vec();
    let interrupted = b"interrupted".to_vec();
    let mut log = encode_record(&committed).unwrap();
    let tail = encode_record(&interrupted).unwrap();
    log.extend_from_slice(&tail[..tail.len() / 3]);

    assert_eq!(split_records(&log), vec![committed]);
}

#[test]
fn promote_ready_jobs_moves_due_delayed_job_into_pending() {
    let mut queue = Queue::new();
    let now = chrono::Utc::now().timestamp_micros();
    let run_at = now + 50_000;
    let job = Job::scheduled("emails", br#"{"kind":"welcome"}"#.to_vec(), 3, run_at);
    let job_id = job.id;
    queue.enqueue_at(job, now);

    assert_eq!(queue.pending_len(), 0);
    assert_eq!(queue.scheduled_len(), 1);

    let promoted = queue.promote_ready_jobs(run_at + 1_000);

    assert_eq!(promoted, 1);
    assert_eq!(queue.pending_len(), 1);
    assert_eq!(queue.scheduled_len(), 0);
    assert_eq!(queue.pending.front().map(|job| job.id), Some(job_id));
    assert_eq!(queue.pending.front().and_then(|job| job.scheduled_at), Some(run_at));
}

#[test]
fn promotion_takes_due_jobs_in_time_order_and_leaves_later_ones() {
    let mut queue = Queue::new();
    let late = Job::with_identity(3, "q", vec![3], 1, 0);
    let mut early = Job::with_identity(1, "q", vec![1], 1, 0);
    let mut middle = Job::with_identity(2, "q", vec![2], 1, 0);
    let mut late = late;
    early.scheduled_at = Some(100);
    middle.scheduled_at = Some(200);
    late.scheduled_at = Some(900);
    queue.enqueue_at(middle, 0);
    queue.enqueue_at(late, 0);
    queue.enqueue_at(early, 0);

    assert_eq!(queue.promote_ready_jobs(500), 2);
    let ids: Vec<u128> = queue.pending.iter().map(|j| j.id).collect();
    assert_eq!(ids, vec![1, 2]);
    assert_eq!(queue.scheduled_len(), 1);
    let newest_first: Vec<u128> = queue.recently_promoted(0).iter().map(|j| j.id).collect();
    assert_eq!(newest_first, vec![2, 1]);
}

#[test]
fn ack_of_unknown_job_is_refused() {
    let mut queue = Queue::new();
    assert_eq!(queue.ack(7).unwrap_err(), QueueError::JobNotProcessing(7));
    assert_eq!(
        QueueError::JobNotProcessing(7).message(),
        "job 00000000-0000-0000-0000-000000000007 not found in processing"
    );
}

#[test]
fn dequeue_for_queue_takes_first_of_that_queue() {
    let mut queue = Queue::new();
    queue.enqueue_at(Job::with_identity(1, "a", vec![], 3, 0), 0);
    queue.enqueue_at(Job::with_identity(2, "b", vec![], 3, 0), 0);
    queue.enqueue_at(Job::with_identity(3, "b", vec![], 3, 0), 0);
    let job = queue.dequeue_for_queue("b").unwrap();
    assert_eq!(job.id, 2);
    assert!(queue.dequeue_for_queue("c").is_none());
    assert_eq!(queue.count_pending("b"), 1);
    assert_eq!(queue.count_processing("b"), 1);
}

#[test]
fn snapshot_restores_queue() {
    let mut queue = Queue::new();
    queue.enqueue_at(Job::with_identity(1, "a", vec![1], 3, 0), 0);
    let mut later = Job::with_identity(2, "a", vec![2], 3, 0);
    later.scheduled_at = Some(1_000);
    queue.enqueue_at(later, 0);
    queue.enqueue_at(Job::with_identity(3, "a", vec![3], 1, 0), 0);
    let _ = queue.dequeue();
    let _ = queue.dequeue();
    let _ = queue.nack(3, "boom");

    let restored = Queue::from_snapshot(queue.snapshot());
    assert_eq!(restored.pending_len(), 0);
    assert_eq!(restored.processing_len(), 1);
    assert_eq!(restored.scheduled_len(), 1);
    assert_eq!(restored.dead_letter_len(), 1);
    assert_eq!(restored.failure_reason(3), Some("boom"));
    let mut restored = restored;
    assert_eq!(restored.promote_ready_jobs(1_000), 1);
}

#[test]
fn apply_event_replays_log() {
    let mut queue = Queue::new();
    let job = Job::with_identity(9, "jobs", vec![1], 3, 0);
    assert!(queue.apply_event(WalEvent::Enqueue(job), 0).is_ok());
    assert!(queue.apply_event(WalEvent::Dequeue(9), 0).is_ok());
    assert!(queue.apply_event(WalEvent::Ack(9), 0).is_ok());
    assert!(queue.apply_event(WalEvent::Ack(9), 0).is_err());
    assert_eq!(queue.completed_len(), 1);
}

#[test]
fn segment_names_and_order() {
    assert_eq!(parse_segment_index("wal.007.log"), Some(7));
    assert_eq!(parse_segment_index("wal.log"), None);
    assert_eq!(parse_segment_index("wal.x.log"), None);
    assert_eq!(segment_sort_key("wal.log").0, u32::MAX);
    assert_eq!(next_segment_name(0), "wal.001.log");
    assert_eq!(next_segment_name(1233), "wal.1234.log");
    let listing = vec![
        "wal.log".to_string(),
        "snapshot.bin".to_string(),
        "wal.010.log".to_string(),
        "wal.002.log".to_string(),
    ];
    assert_eq!(order_segments(&listing), vec!["wal.002.log", "wal.010.log", "wal.log"]);
    assert_eq!(highest_segment_index(&listing), 10);
}

#[test]
fn oversized_record_error_message() {
    assert_eq!(WalError::RecordTooLarge(5).message(), "record too large to store in wal: 5 bytes");
    assert_eq!(WalError::Io("disk".into()).message(), "io error: disk");
}

#[test]
fn uuid_text_form() {
    assert_eq!(
        uuid_string(0x67e5504410b1426f9247bb680e5fe0c8),
        "67e55044-10b1-426f-9247-bb680e5fe0c8"
    );
}

fn service() -> QueueService {
    QueueService { queue: Queue::new(), runtime: QueueRuntime::new(WorkerPoolConfig::default()) }
}

#[test]
fn service_refuses_null_payload() {
    let mut svc = service();
    let req = QueueRequest::Enqueue { queue: "q".to_string(), payload: JsonPayload::Null, max_attempts: 3 };
    match svc.plan_request(req, 1, 0, 0) {
        Planned::Reply(QueueResponse::Error { message }) => assert_eq!(message, "payload cannot be null"),
        _ => panic!("expected an error"),
    }
}

#[test]
fn service_enqueue_dequeue_ack_flow() {
    let mut svc = service();
    let req = QueueRequest::Enqueue {
        queue: "emails".to_string(),
        payload: JsonPayload::Json(b"{\"to\":\"a\"}".to_vec()),
        max_attempts: 3,
    };
    let (event, then) = match svc.plan_request(req, 42, 5, 0) {
        Planned::Log(e, t) => (e, t),
        _ => panic!("expected a log step"),
    };
    let applied = svc.apply_logged(event, 5).unwrap();
    let (resp, broadcast) = svc.conclude(then, Ok(applied), 0);
    assert!(matches!(resp, QueueResponse::Enqueued { ref job } if job.id == 42 && job.queue == "emails"));
    assert!(matches!(broadcast, Some(QueueResponse::Event { ref kind, .. }) if kind == "enqueued"));

    let req = QueueRequest::Dequeue { queue: Some("emails".to_string()) };
    let (event, then) = match svc.plan_request(req, 0, 0, 10) {
        Planned::Log(e, t) => (e, t),
        _ => panic!("expected a log step"),
    };
    assert!(matches!(then, Then::Dequeued { permit: Some(_) }));
    let applied = svc.apply_logged(event, 0).unwrap();
    let (resp, _) = svc.conclude(then, Ok(applied), 10);
    assert!(matches!(resp, QueueResponse::Dequeued { job: Some(ref j) } if j.id == 42));

    // The default concurrency of one is used up.
    let req = QueueRequest::Dequeue { queue: Some("emails".to_string()) };
    assert!(matches!(svc.plan_request(req, 0, 0, 11), Planned::Reply(QueueResponse::Dequeued { job: None })));

    let hb = QueueRequest::Heartbeat { id: 42 };
    assert!(matches!(svc.plan_request(hb, 0, 0, 12), Planned::Reply(QueueResponse::HeartbeatRecorded { id: 42 })));
    assert!(svc.runtime.stale_jobs(12 + 60_000_001).contains(&42));

    let (event, then) = match svc.plan_request(QueueRequest::Ack { id: 42 }, 0, 0, 20) {
        Planned::Log(e, t) => (e, t),
        _ => panic!("expected a log step"),
    };
    let applied = svc.apply_logged(event, 0).unwrap();
    let (resp, _) = svc.conclude(then, Ok(applied), 20);
    assert!(matches!(resp, QueueResponse::Acked { ref job } if job.status == JobStatus::Completed));
    let stats = svc.runtime.stats_for_queue(&svc.queue, "emails", 30);
    assert_eq!(stats.throughput_per_sec, 1);
    assert_eq!(stats.pending, 0);

    let hb = QueueRequest::Heartbeat { id: 42 };
    match svc.plan_request(hb, 0, 0, 40) {
        Planned::Reply(QueueResponse::Error { message }) => assert_eq!(
            message,
            "job 00000000-0000-0000-0000-00000000002a is not being tracked for heartbeat"
        ),
        _ => panic!("expected an error"),
    }
}

#[test]
fn cron_answers() {
    assert!(matches!(cron_registered("q".into(), "* * *".into(), Err("bad".into())), QueueResponse::Error { ref message } if message == "invalid cron expression: bad"));
    assert!(matches!(cron_registered("q".into(), "e".into(), Ok(None)), QueueResponse::Error { ref message } if message == "cron expression has no future run time"));
    assert!(matches!(cron_registered("q".into(), "e".into(), Ok(Some(1))), QueueResponse::CronRegistered { .. }));
}

#[test]
fn js_views_and_config() {
    let js = JsQueueJob::from_job(Job::with_identity(1, "q", b"{}".to_vec(), 3, 0));
    assert_eq!(js.status, "pending");
    assert_eq!(js.payload_json, "{}");
    assert_eq!(js.created_at, "1970-01-01T00:00:00+00:00");
    assert_eq!(QueueWsConfig::default().addr(), "127.0.0.1:6380");
}

#[test]
fn js_view_times_at_chrono_range_edges() {
    let last = JsQueueJob::from_job(Job::with_identity(1, "q", vec![], 3, CHRONO_MAX_MICROS));
    assert!(last.created_at.contains("262142-12-31T23:59:59"), "{}", last.created_at);
    let past = JsQueueJob::from_job(Job::with_identity(1, "q", vec![], 3, CHRONO_MAX_MICROS + 1));
    assert_eq!(past.created_at, "");
    let first = JsQueueJob::from_job(Job::with_identity(1, "q", vec![], 3, CHRONO_MIN_MICROS));
    assert!(first.created_at.contains("262143-01-01T00:00:00"), "{}", first.created_at);
    let before = JsQueueJob::from_job(Job::with_identity(1, "q", vec![], 3, CHRONO_MIN_MICROS - 1));
    assert_eq!(before.created_at, "");
}

fn log_and_conclude(svc: &mut QueueService, planned: Planned, mono: u64) -> (QueueResponse, Option<QueueResponse>) {
    match planned {
        Planned::Log(event, then) => {
            let applied = svc.apply_logged(event, 0).map_err(|e| e.message());
            svc.conclude(then, applied, mono)
        }
        Planned::Reply(r) => (r, None),
        Planned::RegisterCron { .. } => panic!("no cron here"),
    }
}

fn enqueue_req(queue: &str) -> QueueRequest {
    QueueRequest::Enqueue { queue: queue.to_string(), payload: JsonPayload::Json(b"{}".to_vec()), max_attempts: 3 }
}

#[test]
fn websocket_api_supports_enqueue_and_stats() {
    let mut svc = service();
    let p = svc.plan_request(enqueue_req("emails"), 1, 0, 0);
    let (resp, _) = log_and_conclude(&mut svc, p, 0);
    assert!(matches!(resp, QueueResponse::Enqueued { ref job } if job.queue == "emails"));
    let p = svc.plan_request(QueueRequest::Stats, 0, 0, 0);
    assert!(matches!(p, Planned::Reply(QueueResponse::Stats { pending: 1, processing: 0, .. })));
}

#[test]
fn websocket_api_supports_scheduled_jobs_and_stats() {
    let mut svc = service();
    let req = QueueRequest::Schedule {
        queue: "emails".to_string(),
        payload: JsonPayload::Json(b"{}".to_vec()),
        run_at: 500,
        max_attempts: 3,
    };
    let p = svc.plan_request(req, 2, 100, 0);
    let (resp, broadcast) = log_and_conclude(&mut svc, p, 0);
    assert!(matches!(resp, QueueResponse::Enqueued { ref job } if job.scheduled_at == Some(500)));
    assert!(broadcast.is_none());
    let p = svc.plan_request(QueueRequest::Stats, 0, 0, 0);
    assert!(matches!(p, Planned::Reply(QueueResponse::Stats { pending: 0, scheduled: 1, .. })));
}

#[test]
fn websocket_api_enforces_per_queue_concurrency_limit() {
    let mut svc = service();
    for id in 1..=2u128 {
        let p = svc.plan_request(enqueue_req("emails"), id, 0, 0);
        log_and_conclude(&mut svc, p, 0);
    }
    let p = svc.plan_request(QueueRequest::Dequeue { queue: Some("emails".into()) }, 0, 0, 1);
    let (first, _) = log_and_conclude(&mut svc, p, 1);
    assert!(matches!(first, QueueResponse::Dequeued { job: Some(_) }));
    let p = svc.plan_request(QueueRequest::Dequeue { queue: Some("emails".into()) }, 0, 0, 2);
    assert!(matches!(p, Planned::Reply(QueueResponse::Dequeued { job: None })));
    let p = svc.plan_request(QueueRequest::Ack { id: 1 }, 0, 0, 3);
    log_and_conclude(&mut svc, p, 3);
    let p = svc.plan_request(QueueRequest::Dequeue { queue: Some("emails".into()) }, 0, 0, 4);
    let (second, _) = log_and_conclude(&mut svc, p, 4);
    assert!(matches!(second, QueueResponse::Dequeued { job: Some(ref j) } if j.id == 2));
}

#[test]
fn heartbeat_timeout_auto_nacks_processing_job() {
    let mut svc = service();
    let p = svc.plan_request(enqueue_req("emails"), 7, 0, 0);
    log_and_conclude(&mut svc, p, 0);
    let p = svc.plan_request(QueueRequest::Dequeue { queue: Some("emails".into()) }, 0, 0, 0);
    log_and_conclude(&mut svc, p, 0);
    let stale = svc.runtime.stale_jobs(60_000_001);
    assert_eq!(stale, vec![7]);
    let job = svc.queue.nack(7, "heartbeat timeout").unwrap();
    svc.runtime.finish_job(7, false, 60_000_001);
    assert_eq!(job.status, JobStatus::Pending);
    assert_eq!(svc.queue.failure_reason(7), Some("heartbeat timeout"));
    assert!(svc.runtime.stale_jobs(120_000_000).is_empty());
}

#[test]
fn websocket_heartbeat_keeps_job_alive() {
    let mut svc = service();
    let p = svc.plan_request(enqueue_req("emails"), 9, 0, 0);
    log_and_conclude(&mut svc, p, 0);
    let p = svc.plan_request(QueueRequest::Dequeue { queue: Some("emails".into()) }, 0, 0, 0);
    log_and_conclude(&mut svc, p, 0);
    let p = svc.plan_request(QueueRequest::Heartbeat { id: 9 }, 0, 0, 50_000_000);
    assert!(matches!(p, Planned::Reply(QueueResponse::HeartbeatRecorded { id: 9 })));
    assert!(svc.runtime.stale_jobs(100_000_000).is_empty());
}

#[test]
fn stats_router_returns_queue_specific_stats_and_throughput() {
    let mut svc = service();
    for (id, q) in [(1u128, "a"), (2, "b"), (3, "a")] {
        let p = svc.plan_request(enqueue_req(q), id, 0, 0);
        log_and_conclude(&mut svc, p, 0);
    }
    let p = svc.plan_request(QueueRequest::Dequeue { queue: Some("a".into()) }, 0, 0, 10);
    log_and_conclude(&mut svc, p, 10);
    let p = svc.plan_request(QueueRequest::Ack { id: 1 }, 0, 0, 20);
    log_and_conclude(&mut svc, p, 20);
    let stats = svc.runtime.stats_for_queue(&svc.queue, "a", 30);
    assert_eq!(stats.queue, "a");
    assert_eq!(stats.pending, 1);
    assert_eq!(stats.processing, 0);
    assert_eq!(stats.failed, 0);
    assert_eq!(stats.throughput_per_sec, 1);
    let later = svc.runtime.stats_for_queue(&svc.queue, "a", 2_000_000);
    assert_eq!(later.throughput_per_sec, 0);
}

#[test]
fn websocket_api_supports_subscribe_and_dequeue_ack_flow() {
    let mut svc = service();
    let p = svc.plan_request(QueueRequest::Subscribe { queue: "emails".into() }, 0, 0, 0);
    assert!(matches!(p, Planned::Reply(QueueResponse::Subscribed { ref queue }) if queue == "emails"));
    let p = svc.plan_request(enqueue_req("emails"), 5, 0, 0);
    let (_, event) = log_and_conclude(&mut svc, p, 0);
    assert!(matches!(event, Some(QueueResponse::Event { ref queue, ref kind, .. }) if queue == "emails" && kind == "enqueued"));
    let p = svc.plan_request(QueueRequest::Dequeue { queue: None }, 0, 0, 0);
    let (resp, _) = log_and_conclude(&mut svc, p, 0);
    assert!(matches!(resp, QueueResponse::Dequeued { job: Some(ref j) } if j.id == 5));
    let p = svc.plan_request(QueueRequest::Ack { id: 5 }, 0, 0, 0);
    let (resp, _) = log_and_conclude(&mut svc, p, 0);
    assert!(matches!(resp, QueueResponse::Acked { ref job } if job.id == 5));
}

fn snapshot_ids(queue: &Queue) -> (Vec<u128>, Vec<u128>, Vec<u128>, Vec<u128>) {
    let s = queue.snapshot();
    let mut processing: Vec<u128> = s.processing.keys().copied().collect();
    processing.sort();
    (
        s.pending.iter().map(|j| j.id).collect(),
        processing,
        s.completed.iter().map(|j| j.id).collect(),
        s.dead_letter.iter().map(|j| j.id).collect(),
    )
}

#[test]
fn replaying_the_log_rebuilds_the_queue() {
    let mut live = Queue::new();
    let mut log = Vec::new();
    let mut run = |q: &mut Queue, e: WalEvent, copy: WalEvent| {
        let _ = q.apply_event(e, 10);
        log.push(copy);
    };
    for id in 1..=4u128 {
        let job = Job::with_identity(id, "q", vec![id as u8], 1, 0);
        run(&mut live, WalEvent::Enqueue(job.clone()), WalEvent::Enqueue(job));
    }
    run(&mut live, WalEvent::Dequeue(1), WalEvent::Dequeue(1));
    run(&mut live, WalEvent::Dequeue(2), WalEvent::Dequeue(2));
    run(&mut live, WalEvent::Dequeue(3), WalEvent::Dequeue(3));
    run(&mut live, WalEvent::Ack(1), WalEvent::Ack(1));
    run(&mut live, WalEvent::Nack(2, "boom".into()), WalEvent::Nack(2, "boom".into()));
    run(&mut live, WalEvent::Ack(9), WalEvent::Ack(9));
    let mut reopened = Queue::new();
    reopened.replay(log, 1_000);
    assert_eq!(snapshot_ids(&reopened), snapshot_ids(&live));
    assert_eq!(snapshot_ids(&reopened), (vec![4], vec![3], vec![1], vec![2]));
    assert_eq!(reopened.snapshot().failure_reasons.get(&2).map(String::as_str), Some("boom"));
}
