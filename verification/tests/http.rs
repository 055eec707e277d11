use pulsur::http::{
    buffered_body, compute_ws_accept, content_length, dispatch, find_header_end, parse_head,
    parse_header_section, reason_phrase, serialize_response, upgrade_response, Dispatch, HttpError,
    HttpVersion, Method, Request, Response, RouteTarget, Router,
};
use pulsur::ws::{decode_frame, encode_frame, frame_event, FrameParse, WsFrame, WsMessage, WsReply};

fn get(params: &[(String, String)], name: &str) -> Option<String> {
    params.iter().rev().find(|(k, _)| k == name).map(|(_, v)| v.clone())
}

#[test]
fn reason_phrase_matches_status() {
    assert_eq!(reason_phrase(200), "OK");
    assert_eq!(reason_phrase(404), "Not Found");
    assert_eq!(reason_phrase(429), "Too Many Requests");
    assert_eq!(reason_phrase(503), "Service Unavailable");
    assert_eq!(reason_phrase(101), "Switching Protocols");
}

#[test]
fn http11_defaults_to_keep_alive() {
    assert!(HttpVersion::Http11.should_keep_alive(None));
}

#[test]
fn http10_defaults_to_close() {
    assert!(!HttpVersion::Http10.should_keep_alive(None));
}

#[test]
fn explicit_close_overrides_http11_default() {
    assert!(!HttpVersion::Http11.should_keep_alive(Some("close")));
}

#[test]
fn explicit_keep_alive_overrides_http10_default() {
    assert!(HttpVersion::Http10.should_keep_alive(Some("keep-alive")));
}

#[test]
fn router_exact_match() {
    let mut router: Router<u32, u32> = Router::new();
    router.add_http(Method::GET, "/health", 1);
    assert!(router.match_route(&Method::GET, "/health").is_some());
    assert!(router.match_route(&Method::GET, "/other").is_none());
}

#[test]
fn router_param_extraction() {
    let mut router: Router<u32, u32> = Router::new();
    router.add_http(Method::GET, "/users/:id", 1);
    let (_, params) = router.match_route(&Method::GET, "/users/42").unwrap();
    assert_eq!(get(&params, "id").as_deref(), Some("42"));
}

#[test]
fn router_method_mismatch() {
    let mut router: Router<u32, u32> = Router::new();
    router.add_http(Method::GET, "/items", 1);
    assert!(router.match_route(&Method::POST, "/items").is_none());
}

#[test]
fn router_root_path() {
    let mut router: Router<u32, u32> = Router::new();
    router.add_http(Method::GET, "/", 1);
    assert!(router.match_route(&Method::GET, "/").is_some());
}

#[test]
fn ws_accept_key_matches_rfc_example() {
    let key = "dGhlIHNhbXBsZSBub25jZQ==";
    let expect = "s3pPLMBiTxaQ9kYGzzhZRbK+xOo=";
    assert_eq!(compute_ws_accept(key), expect);
}

#[test]
fn send_response_writes_correct_status_line() {
    let mut r = Response::new(404);
    r.body = b"not found".to_vec();
    let bytes = serialize_response(&r);
    let text = String::from_utf8(bytes).unwrap();
    assert!(text.starts_with("HTTP/1.1 404 Not Found\r\n"));
    assert!(text.contains("Server: Ferrum-Core/0.7.0\r\n"));
    assert!(text.ends_with("Content-Length: 9\r\n\r\nnot found"));
}

#[test]
fn upgrade_response_has_no_content_length() {
    let text = upgrade_response("abc=");
    assert!(text.starts_with("HTTP/1.1 101 Switching Protocols\r\n"));
    assert!(text.contains("Sec-WebSocket-Accept: abc=\r\n"));
    assert!(!text.contains("Content-Length"));
    assert!(text.ends_with("\r\n\r\n"));
}

#[test]
fn header_section_parses_request_line_and_headers() {
    let (m, path, v, hs) =
        parse_header_section("get /a/b HTTP/1.0\r\nHost: x\r\nContent-Type : text/plain \r\nbad").unwrap();
    assert_eq!(m, Method::GET);
    assert_eq!(path, "/a/b");
    assert_eq!(v, HttpVersion::Http10);
    assert_eq!(hs, vec![
        ("host".to_string(), "x".to_string()),
        ("content-type".to_string(), "text/plain".to_string()),
    ]);
}

#[test]
fn header_section_errors() {
    assert!(matches!(parse_header_section(""), Err(HttpError::Parse(m)) if m == "Empty request"));
    assert!(matches!(parse_header_section("GET /"), Err(HttpError::Parse(m)) if m == "Malformed request line: \"GET /\""));
    assert!(matches!(parse_header_section("GET / HTTP/2"), Err(HttpError::Parse(m)) if m == "Unsupported HTTP version: HTTP/2"));
    assert!(matches!(parse_header_section("BREW / HTTP/1.1"), Err(HttpError::Parse(_))));
}

#[test]
fn head_must_be_utf8() {
    assert!(matches!(parse_head(&[0xff, 0xfe]), Err(HttpError::Parse(m)) if m.starts_with("Non-UTF-8 headers: ")));
    assert!(parse_head(b"GET / HTTP/1.1").is_ok());
}

#[test]
fn header_end_and_body() {
    let buf = b"GET / HTTP/1.1\r\nContent-Length: 3\r\n\r\nabcdef";
    let end = find_header_end(buf).unwrap();
    assert_eq!(end, 33);
    assert_eq!(find_header_end(b"GET / HTTP/1.1\r\n"), None);
    assert_eq!(buffered_body(buf, end + 4, buf.len(), 3), b"abc".to_vec());
    assert_eq!(buffered_body(buf, end + 4, buf.len(), 10), b"abcdef".to_vec());
}

#[test]
fn content_length_limits() {
    let hs = vec![("content-length".to_string(), "12".to_string())];
    assert!(matches!(content_length(&hs), Ok(Some(12))));
    let hs = vec![("content-length".to_string(), "x".to_string())];
    assert!(matches!(content_length(&hs), Ok(None)));
    let hs = vec![("content-length".to_string(), "33554433".to_string())];
    assert!(matches!(content_length(&hs), Err(HttpError::PayloadTooLarge)));
    assert!(matches!(content_length(&Vec::new()), Ok(None)));
}

#[test]
fn frame_length_encodings() {
    assert_eq!(encode_frame(0x81, b"hi"), vec![0x81, 2, b'h', b'i']);
    let mid = encode_frame(0x82, &[0u8; 300]);
    assert_eq!(&mid[..4], &[0x82, 126, 1, 44]);
    assert_eq!(mid.len(), 304);
    let big = encode_frame(0x82, &vec![7u8; 70000]);
    assert_eq!(&big[..10], &[0x82, 127, 0, 0, 0, 0, 0, 1, 0x11, 0x70]);
}

#[test]
fn masked_frame_decodes() {
    let mask = [1u8, 2, 3, 4];
    let text = b"Hello";
    let mut b = vec![0x81, 0x80 | 5];
    b.extend_from_slice(&mask);
    for (i, c) in text.iter().enumerate() {
        b.push(c ^ mask[i % 4]);
    }
    match decode_frame(&b) {
        FrameParse::Frame(f, n) => {
            assert!(f.fin);
            assert_eq!(f.opcode, 1);
            assert_eq!(f.payload, text.to_vec());
            assert_eq!(n, b.len());
        }
        _ => panic!("expected a frame"),
    }
    assert!(matches!(decode_frame(&b[..b.len() - 1]), FrameParse::Incomplete));
    assert!(matches!(decode_frame(&[0x82, 127, 0, 0, 0, 0, 2, 0, 0, 0]), FrameParse::TooLarge));
}

#[test]
fn frame_events() {
    let (reply, res) = frame_event(WsFrame { fin: true, opcode: 9, payload: b"p".to_vec() });
    assert!(matches!(reply, WsReply::Required(ref b) if b == &vec![0x8A, 1, b'p']));
    assert!(matches!(res, Ok(Some(WsMessage::Ping))));
    let (reply, res) = frame_event(WsFrame { fin: true, opcode: 8, payload: Vec::new() });
    assert!(matches!(reply, WsReply::BestEffort(ref b) if b == &vec![0x88, 0]));
    assert!(matches!(res, Ok(None)));
    let (_, res) = frame_event(WsFrame { fin: true, opcode: 1, payload: b"ok".to_vec() });
    assert!(matches!(res, Ok(Some(WsMessage::Text(t))) if t == "ok"));
    let (_, res) = frame_event(WsFrame { fin: true, opcode: 1, payload: vec![0xff] });
    assert!(matches!(res, Err(HttpError::WebSocket(_))));
    let (_, res) = frame_event(WsFrame { fin: true, opcode: 0xB, payload: Vec::new() });
    assert!(matches!(res, Err(HttpError::WebSocket(m)) if m == "Unknown opcode: 0xb"));
    let (reply, res) = frame_event(WsFrame { fin: false, opcode: 0, payload: Vec::new() });
    assert!(matches!(reply, WsReply::BestEffort(_)));
    assert!(matches!(res, Ok(None)));
}

fn request(path: &str, headers: Vec<(String, String)>) -> Request {
    Request {
        method: Method::GET,
        path: path.to_string(),
        version: HttpVersion::Http11,
        headers,
        params: Vec::new(),
        body: Vec::new(),
        peer_addr: "127.0.0.1:1".to_string(),
    }
}

#[test]
fn dispatch_routes_http_ws_and_missing() {
    let mut router: Router<u32, u32> = Router::new();
    router.add_http(Method::GET, "/a", 1);
    router.ws("/chat/:room", 2);
    assert!(matches!(dispatch(&router, &request("/a", Vec::new())), Dispatch::Call(1, _)));
    assert!(matches!(dispatch(&router, &request("/b", Vec::new())), Dispatch::Respond(404)));
    assert!(matches!(dispatch(&router, &request("/chat/x", Vec::new())), Dispatch::Respond(400)));
    let hs = vec![("sec-websocket-key".to_string(), "dGhlIHNhbXBsZSBub25jZQ==".to_string())];
    match dispatch(&router, &request("/chat/x", hs)) {
        Dispatch::Upgrade(w, ps, key) => {
            assert_eq!(*w, 2);
            assert_eq!(get(&ps, "room").as_deref(), Some("x"));
            assert_eq!(key, "s3pPLMBiTxaQ9kYGzzhZRbK+xOo=");
        }
        _ => panic!("expected an upgrade"),
    }
    let _ = RouteTarget::<u32, u32>::Http(0);
}

#[test]
fn error_messages() {
    assert_eq!(HttpError::PayloadTooLarge.message(), "Payload too large (413)");
    assert_eq!(HttpError::Parse("x".into()).message(), "Parse error: x");
}
