use pulsur::config::{max_conns_setting, setting_or, AppConfig};
use pulsur::gateway::{
    add_rate_headers, default_api_key_header, default_base_backoff, default_retries,
    default_timeout, pipeline_plan, rate_limit_key, rejection_response, route_method,
    select_limit, strip_json_fields, rename_json_fields, validate_gateway_config, AuthConfig,
    AuthPlugin, AuthStep, Context, GatewayConfig, JwtAlgorithm, PluginKind, RateDecision,
    RateLimitConfig, RateLimitPlugin, ResilientPassthroughPlugin, RetryDecision, RouteConfig,
    TransformConfig, TransformPlugin, UpstreamConfig, UpstreamOutcome, VerifiedClaims,
};
use pulsur::http::{HttpVersion, Method, Request, Response};
use pulsur::rate_limit::RateLimitStatus;

fn header(hs: &[(String, String)], name: &str) -> Option<String> {
    hs.iter().rev().find(|(k, _)| k == name).map(|(_, v)| v.clone())
}

fn mock_context(path: &str, body: Option<&str>) -> Context {
    let mut headers = Vec::new();
    if body.is_some() {
        headers.push(("content-type".to_string(), "application/json".to_string()));
    }
    Context::new(Request {
        method: Method::GET,
        path: path.to_string(),
        version: HttpVersion::Http11,
        headers,
        params: Vec::new(),
        body: body.map(|s| s.as_bytes().to_vec()).unwrap_or_default(),
        peer_addr: "127.0.0.1:12345".to_string(),
    })
}

#[test]
fn test_transform_plugin_full_suite() {
    let plugin = TransformPlugin::new(TransformConfig {
        strip_headers: vec!["X-Internal-Id".to_string()],
        prefix_strip: Some("/api/v1".to_string()),
        inject_response_headers: vec![
            ("Access-Control-Allow-Origin".to_string(), "*".to_string()),
            ("X-Test".to_string(), "Pulsar".to_string()),
        ],
        body_transformations: vec![("old_key".to_string(), "new_key".to_string())],
        response_body_strip: vec!["internal_field".to_string()],
    });
    let mut ctx = mock_context("/api/v1/users", Some(r#"{"old_key":"value"}"#));
    let rid = plugin.transform_request(&mut ctx);
    assert_eq!(header(&ctx.request.headers, "x-request-id"), Some(rid.clone()));
    assert_eq!(rid.len(), 36);
    assert!(rid.char_indices().all(|(i, c)| if [8, 13, 18, 23].contains(&i) { c == '-' } else { c.is_ascii_hexdigit() && !c.is_ascii_uppercase() }));
    assert_eq!(header(&ctx.request.headers, "x-forwarded-for").as_deref(), Some("127.0.0.1"));
    assert_eq!(ctx.request.path, "/users");
    let body: serde_json::Value = serde_json::from_slice(&ctx.request.body).unwrap();
    assert!(body.get("new_key").is_some());
    assert!(body.get("old_key").is_none());

    let mut res = Response::new(200);
    res.headers.push(("x-internal-id".to_string(), "secret".to_string()));
    res.body = br#"{"ok":true,"internal_field":"leak"}"#.to_vec();
    plugin.transform_response(&mut res, &rid);
    assert_eq!(header(&res.headers, "access-control-allow-origin").as_deref(), Some("*"));
    assert_eq!(header(&res.headers, "x-test").as_deref(), Some("Pulsar"));
    assert!(header(&res.headers, "x-internal-id").is_none());
    let body: serde_json::Value = serde_json::from_slice(&res.body).unwrap();
    assert!(body.get("internal_field").is_none());
    assert_eq!(body.get("ok").unwrap(), true);
}

#[test]
fn prefix_strip_keeps_paths_absolute() {
    let plugin = TransformPlugin::new(TransformConfig {
        strip_headers: vec![],
        prefix_strip: Some("/api".to_string()),
        inject_response_headers: vec![],
        body_transformations: vec![],
        response_body_strip: vec![],
    });
    let mut ctx = mock_context("/api", None);
    ctx.request.headers.push(("x-forwarded-for".to_string(), "10.0.0.1".to_string()));
    ctx.request.headers.push(("x-request-id".to_string(), "given".to_string()));
    let rid = plugin.transform_request(&mut ctx);
    assert_eq!(rid, "given");
    assert_eq!(ctx.request.path, "/");
    assert_eq!(header(&ctx.request.headers, "x-forwarded-for").as_deref(), Some("10.0.0.1, 127.0.0.1"));
    let mut ctx = mock_context("/apiv2", None);
    plugin.transform_request(&mut ctx);
    assert_eq!(ctx.request.path, "/v2");
}

#[test]
fn json_edits_leave_other_bodies_alone() {
    let renames = vec![("a".to_string(), "b".to_string())];
    assert_eq!(rename_json_fields(&b"not json".to_vec(), &renames), b"not json".to_vec());
    assert_eq!(rename_json_fields(&b"{\"c\":1}".to_vec(), &renames), b"{\"c\":1}".to_vec());
    assert_eq!(strip_json_fields(&b"[1]".to_vec(), &vec!["a".to_string()]), b"[1]".to_vec());
}

#[test]
fn test_rate_limit_integration() {
    let plugin_config = RateLimitConfig {
        api_key_header: "x-api-key".to_string(),
        limits: vec![("/api".to_string(), 1)],
    };
    let mut plugin = RateLimitPlugin::new(plugin_config);

    let ctx1 = mock_context("/api/users", None);
    assert!(matches!(plugin.check_at(&ctx1, 1_000), RateDecision::Allow(_)));

    let ctx2 = mock_context("/api/users", None);
    match plugin.check_at(&ctx2, 2_000) {
        RateDecision::Reject(res) => {
            assert_eq!(res.status, 429);
            assert!(header(&res.headers, "x-ratelimit-limit").is_some());
            assert_eq!(header(&res.headers, "retry-after").as_deref(), Some("60"));
        }
        _ => panic!("expected a refusal"),
    }
    let other = mock_context("/other", None);
    assert!(matches!(plugin.check_at(&other, 3_000), RateDecision::Skip));
}

#[test]
fn limits_and_keys() {
    let limits = vec![("/api".to_string(), 10), ("/api/upload".to_string(), 2)];
    assert_eq!(select_limit(&limits, "/api/upload/x"), Some(2));
    assert_eq!(select_limit(&limits, "/api/x"), Some(10));
    assert_eq!(select_limit(&limits, "/x"), None);
    let mut ctx = mock_context("/", None);
    assert_eq!(rate_limit_key(&ctx, "x-api-key"), "ip:127.0.0.1");
    ctx.metadata.push(("auth_sub".to_string(), "u1".to_string()));
    assert_eq!(rate_limit_key(&ctx, "x-api-key"), "user:u1");
    ctx.request.headers.push(("x-api-key".to_string(), "k".to_string()));
    assert_eq!(rate_limit_key(&ctx, "X-API-KEY"), "api-key:k");
    assert_eq!(default_api_key_header(), "x-api-key");
}

#[test]
fn rate_headers_and_refusal() {
    let s = RateLimitStatus { allowed: false, limit: 5, remaining: 0, retry_after_secs: 12, reset_after_secs: 12 };
    let r = rejection_response(&s);
    assert_eq!(String::from_utf8(r.body).unwrap(), "Rate limit exceeded. Try again in 12 seconds.");
    let mut res = Response::new(200);
    add_rate_headers(&mut res, &RateLimitStatus { allowed: true, limit: 5, remaining: 4, retry_after_secs: 0, reset_after_secs: 0 });
    assert_eq!(header(&res.headers, "x-ratelimit-remaining").as_deref(), Some("4"));
}

fn forwarder(max_retries: u32) -> ResilientPassthroughPlugin {
    ResilientPassthroughPlugin::new(UpstreamConfig { timeout_sec: 1, max_retries, base_backoff_ms: 100 })
}

#[test]
fn retries_server_errors_then_delivers() {
    let f = forwarder(2);
    match f.decide(UpstreamOutcome::Status(503), 0) {
        RetryDecision::Retry { attempts, backoff_ms } => {
            assert_eq!(attempts, 1);
            assert!((100..150).contains(&backoff_ms));
        }
        _ => panic!("expected a retry"),
    }
    match f.decide(UpstreamOutcome::Timeout, 1) {
        RetryDecision::Retry { attempts, backoff_ms } => {
            assert_eq!(attempts, 2);
            assert!((200..250).contains(&backoff_ms));
        }
        _ => panic!("expected a retry"),
    }
    assert!(matches!(f.decide(UpstreamOutcome::Status(503), 2), RetryDecision::Deliver));
    assert!(matches!(f.decide(UpstreamOutcome::Status(200), 0), RetryDecision::Deliver));
    match f.decide(UpstreamOutcome::Failed, 2) {
        RetryDecision::Fail(res) => {
            assert_eq!(res.status, 502);
            assert_eq!(res.headers, vec![("Server".to_string(), "Ferrum-Core/0.7.0".to_string())]);
            assert_eq!(
                String::from_utf8(res.body).unwrap(),
                "502 Bad Gateway: Could not connect to upstream after all attempts."
            );
        }
        _ => panic!("expected a failure"),
    }
}

#[test]
fn forwarded_request_parts() {
    let hs = vec![("host".to_string(), "a".to_string()), ("accept".to_string(), "*/*".to_string())];
    assert_eq!(ResilientPassthroughPlugin::request_headers(&hs, 0), vec![("accept".to_string(), "*/*".to_string())]);
    let retry = ResilientPassthroughPlugin::request_headers(&hs, 2);
    assert_eq!(header(&retry, "x-retry-count").as_deref(), Some("2"));
    assert_eq!(ResilientPassthroughPlugin::upstream_method(Method::PATCH), Method::GET);
    assert_eq!(ResilientPassthroughPlugin::target_url("http://u", "/p"), "http://u/p");
    let up = vec![("Content-Type".to_string(), Some("text/plain".to_string())), ("X-Bin".to_string(), None)];
    let res = ResilientPassthroughPlugin::upstream_response(201, &up, b"ok".to_vec());
    assert_eq!(res.status, 201);
    assert_eq!(header(&res.headers, "content-type").as_deref(), Some("text/plain"));
    assert!(header(&res.headers, "x-bin").is_none());
    assert_eq!((default_timeout(), default_retries(), default_base_backoff()), (30, 3, 100));
}

fn auth_config(algorithm: Option<&str>) -> AuthConfig {
    AuthConfig {
        secret: "s".to_string(),
        algorithm: algorithm.map(str::to_string),
        issuer: None,
        audience: None,
        bypass_paths: vec!["/health".to_string()],
    }
}

#[test]
fn auth_prechecks() {
    let plugin = AuthPlugin::new(auth_config(None));
    assert!(matches!(plugin.precheck(&mock_context("/health/live", None)), AuthStep::Bypass));
    assert!(matches!(plugin.precheck(&mock_context("/x", None)), AuthStep::Reject(ref r) if r.status == 401));
    let mut ctx = mock_context("/x", None);
    ctx.request.headers.push(("authorization".to_string(), "Basic abc".to_string()));
    assert!(matches!(plugin.precheck(&ctx), AuthStep::Reject(ref r) if r.status == 401));
    let mut ctx = mock_context("/x", None);
    ctx.request.headers.push(("authorization".to_string(), "Bearer tok".to_string()));
    match plugin.precheck(&ctx) {
        AuthStep::Verify { token, algorithm } => {
            assert_eq!(token, "tok");
            assert_eq!(algorithm, JwtAlgorithm::HS256);
        }
        _ => panic!("expected verification"),
    }
    let rs = AuthPlugin::new(auth_config(Some("RS256")));
    assert!(matches!(rs.precheck(&ctx), AuthStep::Reject(_)));
    AuthPlugin::apply_claims(&mut ctx, VerifiedClaims { sub: "u".into(), extra: vec![("role".into(), "admin".into())] });
    assert_eq!(header(&ctx.metadata, "auth_sub").as_deref(), Some("u"));
    assert_eq!(header(&ctx.metadata, "auth_claim_role").as_deref(), Some("admin"));
}

#[test]
fn gateway_config_checks() {
    let mut config = GatewayConfig {
        listen_addr: "0.0.0.0:1".into(),
        routes: vec![],
        auth: None,
        transform: None,
        rate_limit: None,
        upstream: None,
    };
    assert_eq!(validate_gateway_config(&config).unwrap_err(), "Gateway Config Error: 'routes' must contain at least one entry.");
    config.routes.push(RouteConfig { method: "get".into(), path: "/".into(), upstream: "http://a".into() });
    config.routes.push(RouteConfig { method: "post".into(), path: "/b".into(), upstream: "  ".into() });
    assert_eq!(
        validate_gateway_config(&config).unwrap_err(),
        "Gateway Config Error (Route #2): 'upstream' URL cannot be empty."
    );
    assert_eq!(route_method("delete"), Method::DELETE);
    assert_eq!(route_method("patch"), Method::GET);
    config.auth = Some(auth_config(None));
    let plan = pipeline_plan(&config);
    assert_eq!(plan.len(), 2);
    assert!(matches!(plan[0], PluginKind::Auth(_)));
    assert!(matches!(plan[1], PluginKind::Forward(u) if u.max_retries == 3));
}

#[test]
fn app_config_addresses() {
    let c = AppConfig {
        host: "127.0.0.1".into(),
        http_port: "8080".into(),
        https_port: "3443".into(),
        cert_path: String::new(),
        key_path: String::new(),
        max_conns: 1000,
    };
    assert_eq!(c.http_addr(), "127.0.0.1:8080");
    assert_eq!(c.https_addr(), "127.0.0.1:3443");
    assert_eq!(setting_or(None, "x"), "x");
    assert_eq!(max_conns_setting(Some("12".into())), 12);
    assert_eq!(max_conns_setting(Some("bad".into())), 1000);
    assert_eq!(max_conns_setting(None), 1000);
}

#[test]
fn test_transform_plugin_full() {
    let plugin = TransformPlugin::new(TransformConfig {
        strip_headers: vec!["x-internal-id".to_string()],
        prefix_strip: Some("/api/v1".to_string()),
        inject_response_headers: vec![("Access-Control-Allow-Origin".to_string(), "*".to_string())],
        body_transformations: vec![("user_id".to_string(), "id".to_string())],
        response_body_strip: vec!["debug_info".to_string()],
    });
    let mut ctx = mock_context("/api/v1/users", Some(r#"{"user_id":123}"#));
    let rid = plugin.transform_request(&mut ctx);
    let body: serde_json::Value = serde_json::from_slice(&ctx.request.body).unwrap();
    assert_eq!(body.get("id").unwrap(), 123);

    let mut res = Response::new(200);
    res.headers.push(("content-type".to_string(), "application/json".to_string()));
    res.headers.push(("x-internal-id".to_string(), "secret".to_string()));
    res.body = br#"{"status":"ok","debug_info":"some_leak"}"#.to_vec();
    plugin.transform_response(&mut res, &rid);
    assert_eq!(header(&res.headers, "access-control-allow-origin").as_deref(), Some("*"));
    assert!(header(&res.headers, "x-internal-id").is_none());
    let body_val: serde_json::Value = serde_json::from_slice(&res.body).unwrap();
    assert!(body_val.get("debug_info").is_none());
    assert_eq!(body_val.get("status").unwrap(), "ok");
}
