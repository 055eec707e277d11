use std::collections::HashMap;

use pulsur::load_balancer::{
    drain_response, drain_step, extract_session_key, fnv1a_hash, Backend, BackendPool,
    DrainBackendError, DrainStep,
};

#[test]
fn test_runtime_add_remove() {
    let mut pool = BackendPool::new();
    pool.add(Backend::new("127.0.0.1:8080", 1));
    pool.add(Backend::new("127.0.0.1:8081", 1));

    assert_eq!(pool.get_backends_status().len(), 2);

    pool.remove("127.0.0.1:8080");

    let statuses = pool.get_backends_status();
    assert_eq!(statuses.len(), 1);
    assert_eq!(statuses[0].address, "127.0.0.1:8081");
}

#[test]
fn test_health_filter() {
    let mut pool = BackendPool::new();
    let mut b1 = Backend::new("127.0.0.1:8080", 1);
    let b2 = Backend::new("127.0.0.1:8081", 1);

    b1.set_healthy(false);

    pool.add(b1);
    pool.add(b2);

    for _ in 0..10 {
        let selected = pool.next_round_robin().expect("expected healthy backend");
        assert_eq!(selected.address, "127.0.0.1:8081");
    }
}

#[test]
fn test_draining_backend_is_removed_from_routing() {
    let mut pool = BackendPool::new();
    pool.add(Backend::new("b0", 1));
    pool.add(Backend::new("b1", 1));
    pool.drain_backend("b0").expect("drain should start");
    assert_eq!(pool.drain_backend("b0"), Err(DrainBackendError::AlreadyDraining));
    assert_eq!(pool.drain_backend("nope"), Err(DrainBackendError::NotFound));

    for _ in 0..10 {
        let selected = pool.next_round_robin().expect("expected routable backend");
        assert_eq!(selected.address, "b1");
    }
}

#[test]
fn test_no_healthy_backends() {
    let mut pool = BackendPool::new();
    let mut backend = Backend::new("127.0.0.1:8080", 1);
    backend.set_healthy(false);
    pool.add(backend);

    assert!(pool.next_round_robin().is_none());
    assert!(pool.next_least_connections().is_none());
    assert!(pool.next_weighted_round_robin().is_none());
}

#[test]
fn test_distribution_with_weights() {
    let mut pool = BackendPool::new();
    pool.add(Backend::new("b1", 3));
    pool.add(Backend::new("b2", 1));

    let mut counts = HashMap::new();
    for _ in 0..100 {
        let backend = pool.next_weighted_round_robin().expect("expected weighted backend");
        *counts.entry(backend.address.clone()).or_insert(0usize) += 1;
    }

    assert_eq!(counts["b1"], 75);
    assert_eq!(counts["b2"], 25);
}

#[test]
fn test_distribution_round_robin_even() {
    let mut pool = BackendPool::new();
    for i in 0..5 {
        pool.add(Backend::new(&format!("b{i}"), 1));
    }

    let mut counts = HashMap::new();
    for _ in 0..1000 {
        let backend = pool.next_round_robin().expect("expected round-robin backend");
        *counts.entry(backend.address.clone()).or_insert(0usize) += 1;
    }

    assert_eq!(counts.len(), 5);
    for count in counts.values() {
        assert_eq!(*count, 200);
    }
}

#[test]
fn test_least_connections_prefers_lowest_count() {
    let mut pool = BackendPool::new();

    let mut b1 = Backend::new("b1", 1);
    let mut b2 = Backend::new("b2", 1);
    let mut b3 = Backend::new("b3", 1);

    b1.active_conns = 4;
    b2.active_conns = 1;
    b3.active_conns = 2;

    pool.add(b1);
    pool.add(b2);
    pool.add(b3);

    let backend = pool.next_least_connections().expect("expected least-connections backend");
    assert_eq!(backend.address, "b2");
}

#[test]
fn test_extract_session_key_prefers_cookie_then_ip() {
    assert_eq!(
        extract_session_key(Some("foo=bar; session=abc123; theme=dark"), Some("10.0.0.1")),
        Some("abc123".to_string())
    );
    assert_eq!(
        extract_session_key(Some("foo=bar"), Some("10.0.0.1")),
        Some("10.0.0.1".to_string())
    );
}

#[test]
fn test_sticky_sessions_same_client_ip_hits_same_backend() {
    let mut pool = BackendPool::new().with_sticky_sessions(true);
    for i in 0..5 {
        pool.add(Backend::new(&format!("b{i}"), 1));
    }

    let mut selected = HashMap::new();
    for t in 0..1000u64 {
        let backend = pool.next_sticky(None, Some("192.168.1.10"), t).expect("expected sticky backend");
        *selected.entry(backend.address.clone()).or_insert(0usize) += 1;
    }

    assert_eq!(selected.len(), 1);
    assert_eq!(selected.values().next().copied(), Some(1000));
}

#[test]
fn test_sticky_sessions_fall_back_when_hashed_backend_unhealthy() {
    let mut pool = BackendPool::new().with_sticky_sessions(true);
    pool.add(Backend::new("b0", 1));
    pool.add(Backend::new("b1", 1));
    pool.add(Backend::new("b2", 1));

    let key = "10.0.0.44";
    let hashed_index = fnv1a_hash(key.as_bytes()) as usize % 3;
    let hashed_address = pool.backend_at(hashed_index).address.clone();
    pool.set_healthy(&hashed_address, false);

    let (selected, target) =
        pool.next_sticky_with_target(None, Some(key), 10).expect("expected fallback backend");
    let selected_address = selected.address.clone();
    assert!(selected.is_healthy());

    assert_ne!(target.backend_index, hashed_index);

    let repeated = pool.next_sticky(None, Some(key), 20).expect("expected persisted fallback backend");
    assert_eq!(selected_address, repeated.address);
}

#[test]
fn test_session_cleanup_expires_entries() {
    let mut pool = BackendPool::new().with_sticky_sessions(true).with_session_ttl(50);
    pool.add(Backend::new("b0", 1));
    let _ = pool.next_sticky(None, Some("172.16.0.1"), 0);
    assert_eq!(pool.sessions_len(), 1);
    pool.cleanup_sessions(10);
    assert_eq!(pool.sessions_len(), 1);
    pool.cleanup_sessions(50);
    assert_eq!(pool.sessions_len(), 0);
}

#[test]
fn fnv_and_urls() {
    assert_eq!(fnv1a_hash(b""), 0xcbf29ce484222325);
    assert_eq!(fnv1a_hash(b"a"), 0xaf63dc4c8601ec8c);
    assert_eq!(Backend::new("h:1", 1).health_check_url(), "http://h:1/health");
}

#[test]
fn drain_decisions_and_answers() {
    assert_eq!(drain_step(0, 0, 10), DrainStep::Complete);
    assert_eq!(drain_step(2, 10, 10), DrainStep::ForceRemove);
    assert_eq!(drain_step(2, 9, 10), DrainStep::Wait);
    let (code, body) = drain_response("b0".into(), Err(DrainBackendError::AlreadyDraining));
    assert_eq!(code, 409);
    assert_eq!(body.message, "backend is already draining");
    let (code, body) = drain_response("b0".into(), Ok(()));
    assert_eq!(code, 202);
    assert!(body.draining);
}

#[test]
fn test_status_router_lists_backend_health() {
    let mut pool = BackendPool::new();
    let mut backend = Backend::new("127.0.0.1:8080", 3);
    backend.set_healthy(false);
    backend.set_draining(true);
    backend.active_conns = 7;
    pool.add(backend);

    let statuses = pool.get_backends_status();
    assert_eq!(statuses.len(), 1);
    assert_eq!(statuses[0].address, "127.0.0.1:8080");
    assert_eq!(statuses[0].weight, 3);
    assert!(!statuses[0].healthy);
    assert!(statuses[0].draining);
    assert_eq!(statuses[0].active_conns, 7);
}

#[test]
fn test_drain_router_marks_backend_draining() {
    let mut pool = BackendPool::new();
    let mut backend = Backend::new("b0", 1);
    backend.active_conns = 2;
    pool.add(backend);
    let result = pool.drain_backend("b0");
    let (code, body) = drain_response("b0".to_string(), result);
    assert_eq!(code, 202);
    assert!(body.draining);
    assert!(pool.get_backends_status()[0].draining);
    let (code, _) = drain_response("b0".to_string(), pool.drain_backend("b0"));
    assert_eq!(code, 409);
}

#[test]
fn test_drain_removes_backend_once_connections_reach_zero() {
    let mut pool = BackendPool::new();
    pool.add(Backend::new("b0", 1));
    pool.add(Backend::new("b1", 1));
    pool.drain_backend("b0").unwrap();
    assert_eq!(drain_step(1, 0, 60), DrainStep::Wait);
    pool.set_active_conns("b0", 0);
    assert_eq!(drain_step(0, 5, 60), DrainStep::Complete);
    pool.remove("b0");
    let statuses = pool.get_backends_status();
    assert_eq!(statuses.len(), 1);
    assert_eq!(statuses[0].address, "b1");
}

#[test]
fn test_drain_force_removes_backend_after_timeout() {
    let mut pool = BackendPool::new().with_drain_timeout(100);
    pool.add(Backend::new("b0", 1));
    pool.set_active_conns("b0", 3);
    pool.drain_backend("b0").unwrap();
    assert_eq!(drain_step(3, 99, pool.config().drain_timeout), DrainStep::Wait);
    assert_eq!(drain_step(3, 100, pool.config().drain_timeout), DrainStep::ForceRemove);
    pool.remove("b0");
    assert!(pool.get_backends_status().is_empty());
}
