use pulsur::proxy::{
    append_via, build_cache_key, cache_age_secs, contains_chars, filter_forward_headers,
    is_cacheable_method, is_fresh, maybe_cache_response, parse_max_age, resolve_static_path,
    validate_locations, HttpAction, LocationConfig, LocationRoute, LocationTarget, PathIndex,
    ProxyCacheConfig, ProxyError, ProxyRoutes, ReverseProxyConfig, CacheCounters, CacheLookup,
    CachedResponse,
};

fn location(path: &str, upstream: Option<&str>, static_dir: Option<&str>, websocket: Option<&str>) -> LocationConfig {
    LocationConfig {
        path: path.to_string(),
        upstream: upstream.map(str::to_string),
        static_dir: static_dir.map(str::to_string),
        websocket: websocket.map(str::to_string),
    }
}

#[test]
fn longest_prefix_match_prefers_more_specific_route() {
    let config = ReverseProxyConfig {
        listen_addr: "127.0.0.1:0".to_string(),
        locations: vec![
            location("/api/", Some("http://example.com"), None, None),
            location("/api/internal/", Some("http://internal.example.com"), None, None),
        ],
        cache: ProxyCacheConfig::default(),
    };

    let proxy = ProxyRoutes::from_config(&config).expect("proxy should build");
    let route = proxy.match_route("/api/internal/users", false).expect("route");
    assert_eq!(route.path, "/api/internal/");
}

#[test]
fn parses_hot_reload_yaml_config() {
    let config = ReverseProxyConfig {
        listen_addr: "127.0.0.1:8080".to_string(),
        locations: vec![
            location("/api/", Some("http://localhost:4000"), None, None),
            location("/static/", None, Some("./public"), None),
            location("/ws/", None, None, Some("ws://localhost:4001")),
        ],
        cache: ProxyCacheConfig { max_entries: 256, default_ttl_secs: 45 },
    };
    assert!(validate_locations(&config).is_ok());
    assert_eq!(config.locations.len(), 3);
    assert_eq!(config.cache.max_entries, 256);
}

#[test]
fn locations_need_exactly_one_target() {
    let bad = location("/x/", Some("http://a"), Some("./b"), None);
    match LocationRoute::from_config(&bad) {
        Err(ProxyError::InvalidLocation(p)) => assert_eq!(p, "/x/"),
        _ => panic!("expected an invalid location"),
    }
    assert_eq!(
        ProxyError::InvalidLocation("/x/".into()).message(),
        "location `/x/` must define exactly one of upstream/static_dir/websocket"
    );
    let empty = ReverseProxyConfig { listen_addr: String::new(), locations: vec![], cache: ProxyCacheConfig::default() };
    assert!(matches!(ProxyRoutes::from_config(&empty), Err(ProxyError::MissingLocations)));
    let route = LocationRoute::from_config(&location("/s/", None, Some("dir"), None)).unwrap();
    assert_eq!(route.target, LocationTarget::StaticDir("dir".into()));
}

#[test]
fn http_and_websocket_dispatch() {
    let config = ReverseProxyConfig {
        listen_addr: String::new(),
        locations: vec![
            location("/", Some("http://up"), None, None),
            location("/static/", None, Some("./public"), None),
            location("/ws/", None, None, Some("ws://up/")),
        ],
        cache: ProxyCacheConfig::default(),
    };
    let routes = ProxyRoutes::from_config(&config).unwrap();
    assert_eq!(routes.http_action("/static/a.txt"), HttpAction::Static { prefix: "/static/".into(), dir: "./public".into() });
    assert_eq!(routes.http_action("/ws/chat"), HttpAction::Forward { upstream: "http://up".into() });
    assert_eq!(routes.websocket_target("/ws/chat", "/ws/chat?x=1").unwrap(), "ws://up/ws/chat?x=1");
    assert_eq!(routes.websocket_target("/nope", "/nope").unwrap_err().0, 404);
}

#[test]
fn serves_static_files_from_matching_location() {
    assert_eq!(resolve_static_path("/static/", "/static/css/site.css"), Some(vec!["css".to_string(), "site.css".to_string()]));
    assert_eq!(resolve_static_path("/static/", "/static/./a//b"), Some(vec!["a".to_string(), "b".to_string()]));
    assert_eq!(resolve_static_path("/static/", "/static/../etc/passwd"), None);
}

#[test]
fn proxies_http_and_strips_hop_by_hop_headers() {
    let hs = vec![
        ("host".to_string(), "x".to_string()),
        ("connection".to_string(), "close".to_string()),
        ("accept".to_string(), "*/*".to_string()),
        ("Keep-Alive".to_string(), "5".to_string()),
    ];
    assert_eq!(filter_forward_headers(&hs, false), vec![("accept".to_string(), "*/*".to_string())]);
    assert_eq!(append_via(None), "ferrum/1.0");
    assert_eq!(append_via(Some("")), "ferrum/1.0");
    assert_eq!(append_via(Some("1.1 a")), "1.1 a, ferrum/1.0");
}

#[test]
fn caches_get_responses_and_reports_hits() {
    assert!(is_cacheable_method("GET"));
    assert!(is_cacheable_method("HEAD"));
    assert!(!is_cacheable_method("POST"));
    assert_eq!(parse_max_age("public, max-age=60"), Some(60));
    assert_eq!(parse_max_age("max-age=x, max-age=7"), Some(7));
    assert_eq!(parse_max_age("no-cache"), None);
    let hs = vec![
        ("cache-control".to_string(), Some("Max-Age=2".to_string())),
        ("connection".to_string(), Some("keep-alive".to_string())),
        ("content-type".to_string(), Some("text/plain".to_string())),
        ("x-bin".to_string(), None),
    ];
    let c = maybe_cache_response("GET", 200, &hs, b"hi", 30, 1_000).unwrap();
    assert_eq!(c.expires_at, 1_000 + 2_000_000_000);
    assert_eq!(c.headers.len(), 2);
    assert!(is_fresh(&c, 1_000));
    assert!(!is_fresh(&c, 1_000 + 2_000_000_000));
    assert_eq!(cache_age_secs(&c, 1_000 + 3_000_000_000), 3);
    let no_store = vec![("cache-control".to_string(), Some("no-store".to_string()))];
    assert!(maybe_cache_response("GET", 200, &no_store, b"", 30, 0).is_none());
    assert!(maybe_cache_response("GET", 500, &hs, b"", 30, 0).is_none());
    assert!(contains_chars(&['a', 'b', 'c'], &['b', 'c']));
}

#[test]
fn cache_keys_are_sha256_hex() {
    let k = build_cache_key("GET", "/a?b", Some("*/*"), None);
    assert_eq!(k.len(), 64);
    assert!(k.chars().all(|c| c.is_ascii_hexdigit() && !c.is_ascii_uppercase()));
    assert_ne!(k, build_cache_key("GET", "/a?b", None, None));
    assert_eq!(
        build_cache_key("", "", None, None),
        "e3b0c44298fc1c149afbf4c8996fb92427ae41e4649b934ca495991b7852b855"
    );
}

#[test]
fn invalidation_endpoint_clears_cached_entries() {
    let mut index = PathIndex::new();
    index.index_cache_key("/a", "k1".to_string());
    index.index_cache_key("/a", "k2".to_string());
    index.index_cache_key("/b", "k3".to_string());
    assert_eq!(index.invalidate_path("/a"), vec!["k1".to_string(), "k2".to_string()]);
    assert!(index.invalidate_path("/a").is_empty());
    assert_eq!(index.invalidate_path("/b"), vec!["k3".to_string()]);
}

#[test]
fn cache_lookups_count_hits_and_misses() {
    let stored = CachedResponse { status: 200, headers: vec![], body: b"x".to_vec(), cached_at: 10, expires_at: 100 };
    let mut counters = CacheCounters::new();
    assert_eq!(counters.record_lookup(Some(&stored), 50), CacheLookup::Hit);
    assert_eq!(counters.record_lookup(Some(&stored), 100), CacheLookup::Expired);
    assert_eq!(counters.record_lookup(None, 50), CacheLookup::Absent);
    assert_eq!((counters.hits, counters.misses), (1, 2));
    counters.record_invalidations(3);
    counters.record_invalidations(0);
    assert_eq!(counters.invalidations, 3);
    counters.hits = u64::MAX;
    counters.record_lookup(Some(&stored), 0);
    assert_eq!(counters.hits, 0);
}
