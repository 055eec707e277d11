use pulsur::rate_limit::{
    bypass_result, check_recent, ceil_seconds, combine_tiers, endpoint_key, extract_client_key, plan_tiers,
    window_status, JsRateLimitResult, RateLimitRequest, RateLimitStatus, RateLimiterConfig,
    RateLimiterError, SlidingWindowLog, SlidingWindowRateLimiter, TierPlan, TierStatus, WindowType,
};

const MS: u64 = 1_000_000;

#[test]
fn extract_client_key_prefers_api_key_then_jwt_then_ip() {
    assert_eq!(
        extract_client_key(Some("api-123"), Some("user-123"), Some("10.0.0.1")),
        Some("api-123".to_string())
    );
    assert_eq!(
        extract_client_key(None, Some("user-123"), Some("10.0.0.1")),
        Some("user-123".to_string())
    );
    assert_eq!(extract_client_key(None, None, Some("10.0.0.1")), Some("10.0.0.1".to_string()));
}

#[test]
fn client_key_skips_blank_values() {
    assert_eq!(extract_client_key(Some("  "), Some(" sub "), None), Some("sub".to_string()));
    assert_eq!(extract_client_key(Some(""), None, Some("\t")), None);
}

#[test]
fn sliding_window_rejects_when_window_is_full() {
    let mut limiter = SlidingWindowRateLimiter::new(60_000 * MS, 2).expect("limiter should build");

    assert!(limiter.check_key("client-a").expect("check should work").allowed);
    assert!(limiter.check_key("client-a").expect("check should work").allowed);

    let blocked = limiter.check_key("client-a").expect("check should work");
    assert!(!blocked.allowed);
    assert_eq!(blocked.limit, 2);
    assert_eq!(blocked.remaining, 0);
    assert!(blocked.retry_after_secs >= 1);
}

#[test]
fn limiter_refusal_at_fixed_times_reports_the_wait() {
    let mut limiter = SlidingWindowRateLimiter::new(60_000 * MS, 2).expect("limiter should build");
    let now = 1_000 * MS;
    assert!(limiter.check_key_at("client-a", now).allowed);
    assert!(limiter.check_key_at("client-a", now + 500 * MS).allowed);
    let blocked = limiter.check_key_at("client-a", now + 1_000 * MS);
    assert!(!blocked.allowed);
    assert_eq!((blocked.limit, blocked.remaining), (2, 0));
    assert_eq!((blocked.retry_after_secs, blocked.reset_after_secs), (59, 59));
    let other = limiter.check_key_at("client-b", now + 1_000 * MS);
    assert!(other.allowed);
    assert_eq!((other.remaining, other.retry_after_secs), (1, 0));
    assert!(limiter.check_key_at("client-a", now + 60_000 * MS).allowed);
    assert_eq!(limiter.logs_len(), 2);
}

#[test]
fn window_status_reports_a_full_window() {
    let mut log = SlidingWindowLog::new(60_000 * MS, 2).expect("log should build");
    let now = 1_000 * MS;

    assert!(window_status(&mut log, now).allowed);
    assert!(window_status(&mut log, now).allowed);

    let blocked = window_status(&mut log, now);
    assert!(!blocked.allowed);
    assert_eq!(blocked.retry_after_secs, 60);
}

#[test]
fn sliding_window_drains_expired_requests_before_allowing() {
    let mut log = SlidingWindowLog::new(50 * MS, 2).expect("log should build");
    let start = 5_000 * MS;

    assert!(log.allow_at(start));
    assert!(log.allow_at(start + 10 * MS));
    assert!(!log.allow_at(start + 20 * MS));
    assert!(log.allow_at(start + 60 * MS));
}

#[test]
fn sliding_window_counts_boundary_requests() {
    let mut sliding = SlidingWindowLog::new(1_000 * MS, 5).expect("log should build");
    let start = 7 * MS;
    for offset_ms in [0_u64, 50, 100, 150, 190] {
        assert!(sliding.allow_at(start + offset_ms * MS));
    }
    assert!(!sliding.allow_at(start + 200 * MS));
    assert_eq!(sliding.remaining(), 0);
    assert_eq!(sliding.retry_after(start + 200 * MS), 800 * MS);
}

#[test]
fn invalid_window_config_is_refused() {
    assert!(matches!(SlidingWindowLog::new(0, 1), Err(RateLimiterError::InvalidConfig)));
    assert!(matches!(SlidingWindowLog::new(1, 0), Err(RateLimiterError::InvalidConfig)));
    assert_eq!(RateLimiterError::Redis("down".into()).message(), "redis error: down");
}

#[test]
fn ceil_seconds_rounds_up() {
    assert_eq!(ceil_seconds(0), 0);
    assert_eq!(ceil_seconds(1), 1);
    assert_eq!(ceil_seconds(1_000_000_000), 1);
    assert_eq!(ceil_seconds(1_000_000_001), 2);
}

fn status(allowed: bool) -> RateLimitStatus {
    RateLimitStatus { allowed, limit: 2, remaining: 0, retry_after_secs: 3, reset_after_secs: 4 }
}

#[test]
fn user_limit_can_reject_while_global_limit_still_has_capacity() {
    let request = RateLimitRequest {
        user_id: Some("user-1".to_string()),
        endpoint: None,
        ip_address: Some("10.0.0.5".to_string()),
    };
    let plan = plan_tiers(&request, &Vec::new(), Some(10u32), Some(2u32), None);
    let checks = match plan {
        TierPlan::Check(v) => v,
        TierPlan::Bypass => panic!("not allow-listed"),
    };
    assert_eq!(checks.len(), 2);
    assert_eq!(checks[0].key, "global");
    assert_eq!(checks[1].key, "user:user-1");
    assert_eq!(checks[1].rule, 2);

    let blocked = combine_tiers(vec![
        TierStatus { tier: "global".into(), key: "global".into(), status: status(true) },
        TierStatus { tier: "user".into(), key: "user:user-1".into(), status: status(false) },
    ]);
    assert!(!blocked.allowed);
    assert_eq!(blocked.denied_by.as_deref(), Some("user"));
    assert!(blocked.tiers[0].status.allowed);
}

#[test]
fn allow_listed_address_bypasses() {
    let request = RateLimitRequest { user_id: None, endpoint: Some("upload".into()), ip_address: Some("1.2.3.4".into()) };
    assert!(matches!(plan_tiers(&request, &vec!["1.2.3.4".to_string()], Some(1u8), None, None), TierPlan::Bypass));
    let r = bypass_result();
    assert!(r.allowed && r.bypassed && r.tiers.is_empty());
    assert_eq!(endpoint_key("upload"), "endpoint:upload");
}

#[test]
fn headers_and_bindings() {
    let s = status(false);
    let h = s.headers();
    assert_eq!(h.retry_after, 3);
    assert_eq!(h.x_rate_limit_limit, 2);
    assert_eq!(h.x_rate_limit_reset, 4);
    let js = JsRateLimitResult::from_status(s);
    assert_eq!(js.reset_after_secs, 4);
    let c = RateLimiterConfig::default();
    assert_eq!(c.window_type, WindowType::TokenBucket);
    assert_eq!(c.redis_url, "redis://localhost:6379");
}

#[test]
fn per_key_window_check_drops_old_requests() {
    let minute = 60_000_000i64;
    let mut entries = vec![0i64, 30_000_000];
    let s = check_recent(&mut entries, 70_000_000, minute, 2);
    assert!(s.allowed);
    assert_eq!(s.remaining, 0);
    assert_eq!(entries, vec![30_000_000, 70_000_000]);
    assert_eq!(s.reset_at, 30_000_000 + minute);
    let s = check_recent(&mut entries, 80_000_000, minute, 2);
    assert!(!s.allowed);
    assert_eq!(s.remaining, 0);
    assert_eq!(s.limit, 2);
    let mut empty: Vec<i64> = Vec::new();
    let s = check_recent(&mut empty, 5, minute, 0);
    assert!(!s.allowed);
    assert_eq!(s.reset_at, 5 + minute);
}
