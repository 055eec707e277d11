//! HTTP/1.x request parsing, response serialization, routing, and the
//! WebSocket handshake and frame codec.

use vstd::prelude::*;
use vstd::utf8::*;
use crate::text::{
    ascii_lower_seq, chars_eq, chars_of, concat, eq_ignore_ascii_case, find_char, index_of,
    first_index_of, lemma_index_of, lemma_index_of_first, lemma_index_of_absent, lines, lines_of, owned,
    decimal, decimal_chars, decimal_string, utf8_error_text, utf8_string, parse_usize, parse_usize_spec, slice_range, split_char, split_chars, str_eq, string_from_chars, to_lowercase, to_uppercase,
    trim, trim_bounds, unicode_lowercase, unicode_uppercase, views, words, words_of,
};

verus! {

/// Errors of the HTTP server.
#[derive(Debug)]
pub enum HttpError {
    Io(String),
    Parse(String),
    Timeout,
    PayloadTooLarge,
    Serialization(String),
    WebSocket(String),
    Tls(String),
}

impl HttpError {
    /// The error's message.
    pub fn message(&self) -> (r: String)
        ensures
            r@ == match self {
                HttpError::Io(m) => "IO error: "@ + m@,
                HttpError::Parse(m) => "Parse error: "@ + m@,
                HttpError::Timeout => "Connection idle timeout"@,
                HttpError::PayloadTooLarge => "Payload too large (413)"@,
                HttpError::Serialization(m) => "Serialization error: "@ + m@,
                HttpError::WebSocket(m) => "WebSocket error: "@ + m@,
                HttpError::Tls(m) => "TLS error: "@ + m@,
            },
    {
        match self {
            HttpError::Io(m) => concat("IO error: ", m.as_str()),
            HttpError::Parse(m) => concat("Parse error: ", m.as_str()),
            HttpError::Timeout => owned("Connection idle timeout"),
            HttpError::PayloadTooLarge => owned("Payload too large (413)"),
            HttpError::Serialization(m) => concat("Serialization error: ", m.as_str()),
            HttpError::WebSocket(m) => concat("WebSocket error: ", m.as_str()),
            HttpError::Tls(m) => concat("TLS error: ", m.as_str()),
        }
    }
}

/// HTTP request methods the server understands.
#[derive(Debug, PartialEq, Eq, Hash, Clone, Copy, Structural)]
pub enum Method {
    GET,
    POST,
    PUT,
    DELETE,
    PATCH,
    OPTIONS,
    HEAD,
}

/// The method whose canonical name is `name`.
pub open spec fn method_named(name: Seq<char>) -> Option<Method> {
    if name == "GET"@ {
        Some(Method::GET)
    } else if name == "POST"@ {
        Some(Method::POST)
    } else if name == "PUT"@ {
        Some(Method::PUT)
    } else if name == "DELETE"@ {
        Some(Method::DELETE)
    } else if name == "PATCH"@ {
        Some(Method::PATCH)
    } else if name == "OPTIONS"@ {
        Some(Method::OPTIONS)
    } else if name == "HEAD"@ {
        Some(Method::HEAD)
    } else {
        None
    }
}

/// The message of the error for an unknown method (given uppercased).
pub open spec fn unknown_method_message(upper: Seq<char>) -> Seq<char> {
    "Unknown method: "@ + upper
}

impl Method {
    /// Parses a method name case-insensitively (through Unicode uppercase).
    pub fn parse(s: &str) -> (r: Result<Method, HttpError>)
        ensures
            match method_named(unicode_uppercase(s@)) {
                Some(m) => r == Ok::<Method, HttpError>(m),
                None => r matches Err(HttpError::Parse(msg)) && msg@ == unknown_method_message(
                    unicode_uppercase(s@),
                ),
            },
    {
        let upper = to_uppercase(s);
        let u = upper.as_str();
        if str_eq(u, "GET") {
            Ok(Method::GET)
        } else if str_eq(u, "POST") {
            Ok(Method::POST)
        } else if str_eq(u, "PUT") {
            Ok(Method::PUT)
        } else if str_eq(u, "DELETE") {
            Ok(Method::DELETE)
        } else if str_eq(u, "PATCH") {
            Ok(Method::PATCH)
        } else if str_eq(u, "OPTIONS") {
            Ok(Method::OPTIONS)
        } else if str_eq(u, "HEAD") {
            Ok(Method::HEAD)
        } else {
            Err(HttpError::Parse(concat("Unknown method: ", u)))
        }
    }
}

impl std::str::FromStr for Method {
    type Err = HttpError;

    fn from_str(s: &str) -> (r: Result<Method, HttpError>)
        ensures
            match method_named(unicode_uppercase(s@)) {
                Some(m) => r == Ok::<Method, HttpError>(m),
                None => r matches Err(HttpError::Parse(msg)) && msg@ == unknown_method_message(
                    unicode_uppercase(s@),
                ),
            },
    {
        Method::parse(s)
    }
}

/// Parsed HTTP version, which decides the keep-alive default.
#[derive(Debug, Clone, Copy, PartialEq, Eq, Structural)]
pub enum HttpVersion {
    /// HTTP/1.0: the connection closes unless `Connection: keep-alive` is sent.
    Http10,
    /// HTTP/1.1: the connection stays open unless `Connection: close` is sent.
    Http11,
}

/// Whether a connection stays open, given the version and the `Connection` header.
pub open spec fn keep_alive_spec(version: HttpVersion, connection: Option<Seq<char>>) -> bool {
    match connection {
        Some(v) => if ascii_lower_seq(v) == ascii_lower_seq("keep-alive"@) {
            true
        } else if ascii_lower_seq(v) == ascii_lower_seq("close"@) {
            false
        } else {
            version == HttpVersion::Http11
        },
        None => version == HttpVersion::Http11,
    }
}

impl HttpVersion {
    /// True when the connection should be kept alive: an explicit
    /// `keep-alive` or `close` header wins, otherwise HTTP/1.1 keeps alive.
    pub fn should_keep_alive(self, connection_header: Option<&str>) -> (r: bool)
        ensures
            r == keep_alive_spec(
                self,
                match connection_header {
                    Some(v) => Some(v@),
                    None => None,
                },
            ),
    {
        match connection_header {
            Some(v) => {
                if eq_ignore_ascii_case(v, "keep-alive") {
                    true
                } else if eq_ignore_ascii_case(v, "close") {
                    false
                } else {
                    self == HttpVersion::Http11
                }
            },
            None => self == HttpVersion::Http11,
        }
    }
}

/// The standard reason phrase of a status code.
pub open spec fn reason_text(status: u16) -> Seq<char> {
    if status == 100 { "Continue"@ }
    else if status == 101 { "Switching Protocols"@ }
    else if status == 200 { "OK"@ }
    else if status == 201 { "Created"@ }
    else if status == 204 { "No Content"@ }
    else if status == 206 { "Partial Content"@ }
    else if status == 301 { "Moved Permanently"@ }
    else if status == 302 { "Found"@ }
    else if status == 304 { "Not Modified"@ }
    else if status == 400 { "Bad Request"@ }
    else if status == 401 { "Unauthorized"@ }
    else if status == 403 { "Forbidden"@ }
    else if status == 404 { "Not Found"@ }
    else if status == 405 { "Method Not Allowed"@ }
    else if status == 408 { "Request Timeout"@ }
    else if status == 409 { "Conflict"@ }
    else if status == 413 { "Payload Too Large"@ }
    else if status == 429 { "Too Many Requests"@ }
    else if status == 500 { "Internal Server Error"@ }
    else if status == 502 { "Bad Gateway"@ }
    else if status == 503 { "Service Unavailable"@ }
    else if status == 504 { "Gateway Timeout"@ }
    else { "Unknown"@ }
}

/// Maps a status code to its standard reason phrase.
pub fn reason_phrase(status: u16) -> (r: &'static str)
    ensures
        r@ == reason_text(status),
{
    match status {
        100 => "Continue",
        101 => "Switching Protocols",
        200 => "OK",
        201 => "Created",
        204 => "No Content",
        206 => "Partial Content",
        301 => "Moved Permanently",
        302 => "Found",
        304 => "Not Modified",
        400 => "Bad Request",
        401 => "Unauthorized",
        403 => "Forbidden",
        404 => "Not Found",
        405 => "Method Not Allowed",
        408 => "Request Timeout",
        409 => "Conflict",
        413 => "Payload Too Large",
        429 => "Too Many Requests",
        500 => "Internal Server Error",
        502 => "Bad Gateway",
        503 => "Service Unavailable",
        504 => "Gateway Timeout",
        _ => "Unknown",
    }
}

/// Name/value pairs taken by their views.
pub open spec fn pair_views(hs: Seq<(String, String)>) -> Seq<(Seq<char>, Seq<char>)> {
    hs.map_values(|p: (String, String)| (p.0@, p.1@))
}

/// The value of the last pair named `name`: later pairs override earlier
/// ones, as inserting them one by one into a map would.
pub open spec fn lookup(hs: Seq<(Seq<char>, Seq<char>)>, name: Seq<char>) -> Option<Seq<char>>
    decreases hs.len(),
{
    if hs.len() == 0 {
        None
    } else if hs.last().0 == name {
        Some(hs.last().1)
    } else {
        lookup(hs.drop_last(), name)
    }
}

/// Finds the value of the last pair named `name`.
pub fn find_pair<'a>(hs: &'a Vec<(String, String)>, name: &str) -> (r: Option<&'a String>)
    ensures
        r is None <==> lookup(pair_views(hs@), name@) is None,
        r matches Some(v) ==> lookup(pair_views(hs@), name@) == Some(v@),
{
    let mut i: usize = hs.len();
    assert(pair_views(hs@).take(i as int) =~= pair_views(hs@));
    while i > 0
        invariant
            i <= hs@.len(),
            lookup(pair_views(hs@), name@) == lookup(pair_views(hs@).take(i as int), name@),
        decreases i,
    {
        proof {
            assert(pair_views(hs@).take(i as int).drop_last() =~= pair_views(hs@).take(i - 1));
        }
        if str_eq(hs[i - 1].0.as_str(), name) {
            return Some(&hs[i - 1].1);
        }
        i = i - 1;
    }
    None
}

/// An HTTP response.
pub struct Response {
    pub status: u16,
    pub headers: Vec<(String, String)>,
    pub body: Vec<u8>,
}

/// The server header every response carries.
pub open spec fn server_header() -> (Seq<char>, Seq<char>) {
    ("Server"@, "Ferrum-Core/0.7.0"@)
}

impl Response {
    /// A response with the given status, the `Server` header and no body.
    pub fn new(status: u16) -> (r: Self)
        ensures
            r.status == status,
            pair_views(r.headers@) == seq![server_header()],
            r.body@.len() == 0,
    {
        let mut headers: Vec<(String, String)> = Vec::new();
        headers.push((owned("Server"), owned("Ferrum-Core/0.7.0")));
        assert(pair_views(headers@) =~= seq![server_header()]);
        Response { status, headers, body: Vec::new() }
    }
}

/// An HTTP request.
pub struct Request {
    pub method: Method,
    pub path: String,
    pub version: HttpVersion,
    pub headers: Vec<(String, String)>,
    pub params: Vec<(String, String)>,
    pub body: Vec<u8>,
    pub peer_addr: String,
}

impl Request {
    /// True when the request asks for a WebSocket upgrade.
    pub fn is_websocket_upgrade(&self) -> (r: bool)
        ensures
            r == (lookup(pair_views(self.headers@), "upgrade"@) matches Some(v)
                && ascii_lower_seq(v) == ascii_lower_seq("websocket"@)),
    {
        match find_pair(&self.headers, "upgrade") {
            Some(v) => eq_ignore_ascii_case(v.as_str(), "websocket"),
            None => false,
        }
    }
}


/// std's `Debug` rendering of a string: quoted, with escapes.
pub uninterp spec fn debug_str(s: Seq<char>) -> Seq<char>;

/// Renders `s` with std's `Debug` formatting (`format!("{:?}", s)`).
/// Claimed: the result is `debug_str(s@)`, a function of the characters alone.
#[verifier::external_body]
fn debug_quote(s: &str) -> (r: String)
    ensures
        r@ == debug_str(s@),
{
    format!("{:?}", s)
}

/// The version named by the third word of a request line.
pub open spec fn version_named(v: Seq<char>) -> Option<HttpVersion> {
    if v == "HTTP/1.1"@ {
        Some(HttpVersion::Http11)
    } else if v == "HTTP/1.0"@ {
        Some(HttpVersion::Http10)
    } else {
        None
    }
}

/// The header a line denotes: the name before the first `:` (trimmed and
/// lowercased) and the value after it (trimmed); lines without `:` denote none.
pub open spec fn header_pair(line: Seq<char>) -> Option<(Seq<char>, Seq<char>)> {
    let i = index_of(line, ':');
    if 0 <= i < line.len() {
        Some((unicode_lowercase(trim(line.take(i))), trim(line.skip(i + 1))))
    } else {
        None
    }
}

/// A header line splits at its first colon: for a name without a colon,
/// the line `name:value` denotes the trimmed, lowercased name and the
/// trimmed value, whatever colons the value holds.
pub proof fn header_line_splits_at_first_colon(name: Seq<char>, value: Seq<char>)
    requires
        forall|k: int| 0 <= k < name.len() ==> name[k] != ':',
    ensures
        header_pair(name + seq![':'] + value) == Some((unicode_lowercase(trim(name)), trim(value))),
{
    let line = name + seq![':'] + value;
    let i = name.len() as int;
    assert(line[i] == ':');
    assert forall|k: int| 0 <= k < i implies line[k] != ':' by {
        assert(line[k] == name[k]);
    }
    assert(first_index_of(line, ':', i));
    lemma_index_of_first(line, ':', i);
    assert(line.take(i) =~= name);
    assert(line.skip(i + 1) =~= value);
}

/// A line without a colon denotes no header.
pub proof fn header_line_without_colon(line: Seq<char>)
    requires
        forall|k: int| 0 <= k < line.len() ==> line[k] != ':',
    ensures
        header_pair(line) is None,
{
    lemma_index_of_absent(line, ':');
}

/// The headers that the lines denote, in order.
pub open spec fn header_pairs(ls: Seq<Seq<char>>) -> Seq<(Seq<char>, Seq<char>)>
    decreases ls.len(),
{
    if ls.len() == 0 {
        Seq::empty()
    } else {
        let rest = header_pairs(ls.drop_last());
        match header_pair(ls.last()) {
            Some(p) => rest.push(p),
            None => rest,
        }
    }
}

/// The words of the request line (the first line, trimmed).
pub open spec fn request_line_words(s: Seq<char>) -> Seq<Seq<char>> {
    words(trim(lines(s)[0]))
}

/// The outcome of parsing a header section, with errors named by their message.
pub open spec fn parsed_header_section(s: Seq<char>) -> Result<
    (Method, Seq<char>, HttpVersion, Seq<(Seq<char>, Seq<char>)>),
    Seq<char>,
> {
    let ls = lines(s);
    if ls.len() == 0 {
        Err("Empty request"@)
    } else {
        let parts = request_line_words(s);
        if parts.len() < 3 {
            Err("Malformed request line: "@ + debug_str(trim(ls[0])))
        } else {
            match method_named(unicode_uppercase(parts[0])) {
                None => Err(unknown_method_message(unicode_uppercase(parts[0]))),
                Some(m) => match version_named(parts[2]) {
                    None => Err("Unsupported HTTP version: "@ + parts[2]),
                    Some(v) => Ok((m, parts[1], v, header_pairs(ls.skip(1)))),
                },
            }
        }
    }
}

/// Splits one header line at its first colon.
fn parse_header_line(line: &Vec<char>) -> (r: Option<(String, String)>)
    ensures
        match header_pair(line@) {
            Some(p) => r matches Some(q) && q.0@ == p.0 && q.1@ == p.1,
            None => r is None,
        },
{
    proof {
        lemma_index_of(line@, ':');
    }
    match find_char(line.as_slice(), ':') {
        Some(i) => {
            proof {
                lemma_index_of_first(line@, ':', i as int);
            }
            assert(i < line@.len());
            let n = line.len();
            assert(i < n);
            let k = slice_range(line.as_slice(), 0, i);
            let (ka, kb) = trim_bounds(k.as_slice());
            let kt = string_from_chars(slice_range(k.as_slice(), ka, kb).as_slice());
            let v = slice_range(line.as_slice(), i + 1, line.len());
            let (va, vb) = trim_bounds(v.as_slice());
            let vt = string_from_chars(slice_range(v.as_slice(), va, vb).as_slice());
            proof {
                assert(k@ =~= line@.take(i as int));
                assert(v@ =~= line@.skip(i + 1));
            }
            Some((to_lowercase(kt.as_str()), vt))
        },
        None => {
            proof {
                lemma_index_of_absent(line@, ':');
            }
            None
        },
    }
}

/// Parses the header section of an HTTP/1.x request: the request line
/// (method, path, version) and the `name: value` header lines.
pub fn parse_header_section(header_section: &str) -> (r: Result<
    (Method, String, HttpVersion, Vec<(String, String)>),
    HttpError,
>)
    ensures
        match parsed_header_section(header_section@) {
            Ok((m, path, v, hs)) => r matches Ok(t) && t.0 == m && t.1@ == path && t.2 == v
                && pair_views(t.3@) == hs,
            Err(msg) => r matches Err(HttpError::Parse(e)) && e@ == msg,
        },
{
    let cs = chars_of(header_section);
    let ls = lines_of(cs.as_slice());
    if ls.len() == 0 {
        return Err(HttpError::Parse(owned("Empty request")));
    }
    proof {
        assert(views(ls@)[0] == ls@[0]@);
    }
    let (a, b) = trim_bounds(ls[0].as_slice());
    let rl = slice_range(ls[0].as_slice(), a, b);
    let parts = words_of(rl.as_slice());
    proof {
        assert(views(parts@).len() == parts@.len());
    }
    if parts.len() < 3 {
        let rls = string_from_chars(rl.as_slice());
        let q = debug_quote(rls.as_str());
        return Err(HttpError::Parse(concat("Malformed request line: ", q.as_str())));
    }
    proof {
        assert(views(parts@)[0] == parts@[0]@);
        assert(views(parts@)[1] == parts@[1]@);
        assert(views(parts@)[2] == parts@[2]@);
    }
    let m0 = string_from_chars(parts[0].as_slice());
    let method = match Method::parse(m0.as_str()) {
        Ok(m) => m,
        Err(e) => {
            return Err(e);
        },
    };
    let path = string_from_chars(parts[1].as_slice());
    let v2 = string_from_chars(parts[2].as_slice());
    let version = if str_eq(v2.as_str(), "HTTP/1.1") {
        HttpVersion::Http11
    } else if str_eq(v2.as_str(), "HTTP/1.0") {
        HttpVersion::Http10
    } else {
        return Err(HttpError::Parse(concat("Unsupported HTTP version: ", v2.as_str())));
    };
    let ghost lv = views(ls@);
    let mut headers: Vec<(String, String)> = Vec::new();
    let mut i: usize = 1;
    assert(lv.subrange(1, 1) =~= Seq::<Seq<char>>::empty());
    while i < ls.len()
        invariant
            lv == views(ls@),
            1 <= i <= ls@.len(),
            pair_views(headers@) == header_pairs(lv.subrange(1, i as int)),
        decreases ls@.len() - i,
    {
        let ghost before = headers@;
        proof {
            assert(lv.subrange(1, i + 1).drop_last() =~= lv.subrange(1, i as int));
            assert(lv.subrange(1, i + 1).last() == ls@[i as int]@);
        }
        match parse_header_line(&ls[i]) {
            Some(p) => {
                headers.push(p);
                proof {
                    assert(pair_views(headers@) =~= pair_views(before).push((p.0@, p.1@)));
                }
            },
            None => {},
        }
        i = i + 1;
    }
    proof {
        assert(lv.subrange(1, ls@.len() as int) =~= lv.skip(1));
    }
    Ok((method, path, version, headers))
}


/// True for a pattern segment that captures a path parameter (`:name`).
pub open spec fn is_param(seg: Seq<char>) -> bool {
    seg.len() > 0 && seg[0] == ':'
}

/// `ps` without its empty pieces.
pub open spec fn drop_empty(ps: Seq<Seq<char>>) -> Seq<Seq<char>>
    decreases ps.len(),
{
    if ps.len() == 0 {
        Seq::empty()
    } else if ps.last().len() == 0 {
        drop_empty(ps.drop_last())
    } else {
        drop_empty(ps.drop_last()).push(ps.last())
    }
}

/// The nonempty `/`-separated segments of a path.
pub open spec fn path_segments(path: Seq<char>) -> Seq<Seq<char>> {
    drop_empty(split_char(path, '/'))
}

/// Splits a path into its nonempty `/`-separated segments.
pub fn segments_of(path: &[char]) -> (r: Vec<Vec<char>>)
    ensures
        views(r@) == path_segments(path@),
{
    let parts = split_chars(path, '/');
    let ghost pv = views(parts@);
    let mut out: Vec<Vec<char>> = Vec::new();
    let mut i: usize = 0;
    assert(pv.take(0) =~= Seq::<Seq<char>>::empty());
    while i < parts.len()
        invariant
            pv == views(parts@),
            i <= parts@.len(),
            views(out@) == drop_empty(pv.take(i as int)),
        decreases parts@.len() - i,
    {
        proof {
            assert(pv.take(i + 1).drop_last() =~= pv.take(i as int));
            assert(pv.take(i + 1).last() == parts@[i as int]@);
        }
        if parts[i].len() > 0 {
            let ghost before = out@;
            let seg = slice_range(parts[i].as_slice(), 0, parts[i].len());
            assert(seg@ =~= parts@[i as int]@);
            out.push(seg);
            proof {
                assert(views(out@) =~= views(before).push(parts@[i as int]@));
            }
        }
        i = i + 1;
    }
    proof {
        assert(pv.take(parts@.len() as int) =~= pv);
    }
    out
}

/// The views of a route pattern.
pub open spec fn pattern_view(p: Seq<String>) -> Seq<Seq<char>> {
    p.map_values(|s: String| s@)
}

/// True when a pattern matches the path segments: same length, and every
/// literal segment equal.
pub open spec fn segments_match(pattern: Seq<Seq<char>>, segs: Seq<Seq<char>>) -> bool {
    &&& pattern.len() == segs.len()
    &&& forall|k: int| 0 <= k < pattern.len() && !is_param(#[trigger] pattern[k]) ==> pattern[k] == segs[k]
}

/// The parameters a matching pattern captures, in pattern order.
pub open spec fn captured_params(pattern: Seq<Seq<char>>, segs: Seq<Seq<char>>) -> Seq<(Seq<char>, Seq<char>)>
    decreases pattern.len(),
{
    if pattern.len() == 0 || segs.len() == 0 {
        Seq::empty()
    } else {
        let rest = captured_params(pattern.drop_last(), segs.drop_last());
        if is_param(pattern.last()) {
            rest.push((pattern.last().drop_first(), segs.last()))
        } else {
            rest
        }
    }
}

/// What a route leads to: a plain HTTP handler or a WebSocket handler.
pub enum RouteTarget<H, W> {
    Http(H),
    WebSocket(W),
}

/// A route: a method, a path pattern split into segments, and a target.
pub struct Route<H, W> {
    pub method: Method,
    pub pattern: Vec<String>,
    pub target: RouteTarget<H, W>,
}

/// True when `route` serves `method` on a path with segments `segs`.
pub open spec fn route_matches<H, W>(route: Route<H, W>, method: Method, segs: Seq<Seq<char>>) -> bool {
    route.method == method && segments_match(pattern_view(route.pattern@), segs)
}

/// True when no route serves `method` on segments `segs`.
pub open spec fn no_route_matches<H, W>(routes: Seq<Route<H, W>>, method: Method, segs: Seq<Seq<char>>) -> bool {
    forall|i: int| 0 <= i < routes.len() ==> !route_matches(#[trigger] routes[i], method, segs)
}

/// True when route `i` is the first that serves `method` on segments `segs`.
pub open spec fn is_first_match<H, W>(
    routes: Seq<Route<H, W>>,
    method: Method,
    segs: Seq<Seq<char>>,
    i: int,
) -> bool {
    0 <= i < routes.len() && route_matches(routes[i], method, segs) && forall|j: int|
        0 <= j < i ==> !route_matches(#[trigger] routes[j], method, segs)
}

/// A table of routes, tried in insertion order.
pub struct Router<H, W> {
    pub routes: Vec<Route<H, W>>,
}

impl<H, W> Router<H, W> {
    /// An empty router.
    pub fn new() -> (r: Self)
        ensures
            r.routes@.len() == 0,
    {
        Router { routes: Vec::new() }
    }

    fn pattern_of(path: &str) -> (p: Vec<String>)
        ensures
            pattern_view(p@) == path_segments(path@),
    {
        let cs = chars_of(path);
        let segs = segments_of(cs.as_slice());
        let mut p: Vec<String> = Vec::new();
        let mut i: usize = 0;
        while i < segs.len()
            invariant
                i <= segs@.len(),
                pattern_view(p@) == views(segs@).take(i as int),
            decreases segs@.len() - i,
        {
            let ghost before = p@;
            p.push(string_from_chars(segs[i].as_slice()));
            proof {
                assert(pattern_view(p@) =~= pattern_view(before).push(segs@[i as int]@));
                assert(views(segs@).take(i + 1) =~= views(segs@).take(i as int).push(segs@[i as int]@));
            }
            i = i + 1;
        }
        assert(views(segs@).take(segs@.len() as int) =~= views(segs@));
        p
    }

    /// Adds an HTTP route for `method` on `path`.
    pub fn add_http(&mut self, method: Method, path: &str, handler: H)
        ensures
            final(self).routes@.len() == old(self).routes@.len() + 1,
            final(self).routes@.take(old(self).routes@.len() as int) == old(self).routes@,
            final(self).routes@.last().method == method,
            pattern_view(final(self).routes@.last().pattern@) == path_segments(path@),
            final(self).routes@.last().target == RouteTarget::<H, W>::Http(handler),
    {
        let pattern = Self::pattern_of(path);
        self.routes.push(Route { method, pattern, target: RouteTarget::Http(handler) });
        assert(self.routes@.take(old(self).routes@.len() as int) =~= old(self).routes@);
    }

    /// Adds a WebSocket route on `path` (upgrades arrive as GET requests).
    pub fn ws(&mut self, path: &str, handler: W)
        ensures
            final(self).routes@.len() == old(self).routes@.len() + 1,
            final(self).routes@.take(old(self).routes@.len() as int) == old(self).routes@,
            final(self).routes@.last().method == Method::GET,
            pattern_view(final(self).routes@.last().pattern@) == path_segments(path@),
            final(self).routes@.last().target == RouteTarget::<H, W>::WebSocket(handler),
    {
        let pattern = Self::pattern_of(path);
        self.routes.push(Route { method: Method::GET, pattern, target: RouteTarget::WebSocket(handler) });
        assert(self.routes@.take(old(self).routes@.len() as int) =~= old(self).routes@);
    }

    /// Matches one route against path segments, collecting its parameters.
    fn match_pattern(pattern: &Vec<String>, segs: &Vec<Vec<char>>) -> (r: Option<Vec<(String, String)>>)
        ensures
            r is Some <==> segments_match(pattern_view(pattern@), views(segs@)),
            r matches Some(ps) ==> pair_views(ps@) == captured_params(pattern_view(pattern@), views(segs@)),
    {
        let ghost pv = pattern_view(pattern@);
        let ghost sv = views(segs@);
        if pattern.len() != segs.len() {
            return None;
        }
        let mut params: Vec<(String, String)> = Vec::new();
        let mut k: usize = 0;
        assert(pv.take(0) =~= Seq::<Seq<char>>::empty());
        while k < pattern.len()
            invariant
                pv == pattern_view(pattern@),
                sv == views(segs@),
                pv.len() == sv.len(),
                k <= pv.len(),
                forall|j: int| 0 <= j < k && !is_param(#[trigger] pv[j]) ==> pv[j] == sv[j],
                pair_views(params@) == captured_params(pv.take(k as int), sv.take(k as int)),
            decreases pv.len() - k,
        {
            let p = chars_of(pattern[k].as_str());
            proof {
                assert(p@ == pv[k as int]);
                assert(segs@[k as int]@ == sv[k as int]);
                assert(pv.take(k + 1).drop_last() =~= pv.take(k as int));
                assert(sv.take(k + 1).drop_last() =~= sv.take(k as int));
                assert(pv.take(k + 1).last() == pv[k as int]);
                assert(sv.take(k + 1).last() == sv[k as int]);
            }
            if p.len() > 0 && p[0] == ':' {
                let name = slice_range(p.as_slice(), 1, p.len());
                let ghost before = params@;
                params.push((string_from_chars(name.as_slice()), string_from_chars(segs[k].as_slice())));
                proof {
                    assert(name@ =~= pv[k as int].drop_first());
                    assert(pair_views(params@) =~= pair_views(before).push((name@, sv[k as int])));
                }
            } else {
                if !chars_eq(p.as_slice(), segs[k].as_slice()) {
                    return None;
                }
            }
            k = k + 1;
        }
        proof {
            assert(pv.take(pv.len() as int) =~= pv);
            assert(sv.take(sv.len() as int) =~= sv);
        }
        Some(params)
    }

    /// Finds the first route for `method` whose pattern matches `path`, and
    /// the parameters it captures.
    pub fn match_route(&self, method: &Method, path: &str) -> (r: Option<(&RouteTarget<H, W>, Vec<(String, String)>)>)
        ensures
            r is None <==> no_route_matches(self.routes@, *method, path_segments(path@)),
            forall|i: int|
                is_first_match(self.routes@, *method, path_segments(path@), i) ==> (r matches Some((t, ps))
                    && t == &self.routes@[i].target && pair_views(ps@) == captured_params(
                    pattern_view(self.routes@[i].pattern@),
                    path_segments(path@),
                )),
    {
        let cs = chars_of(path);
        let segs = segments_of(cs.as_slice());
        let mut i: usize = 0;
        while i < self.routes.len()
            invariant
                i <= self.routes@.len(),
                views(segs@) == path_segments(path@),
                forall|j: int|
                    0 <= j < i ==> !route_matches(
                        #[trigger] self.routes@[j],
                        *method,
                        path_segments(path@),
                    ),
            decreases self.routes@.len() - i,
        {
            let route = &self.routes[i];
            if route.method == *method {
                match Self::match_pattern(&route.pattern, &segs) {
                    Some(params) => {
                        return Some((&route.target, params));
                    },
                    None => {},
                }
            }
            i = i + 1;
        }
        None
    }
}

/// The GUID that RFC 6455 appends to a client's WebSocket key.
pub open spec fn ws_guid() -> Seq<char> {
    "258EAFA5-E914-47DA-95CA-C5AB0DC85B11"@
}

/// The SHA-1 digest of `data`.
pub uninterp spec fn sha1_digest(data: Seq<u8>) -> Seq<u8>;

/// The character of the standard base64 alphabet for the six bits `v`.
pub open spec fn base64_char(v: int) -> char {
    if v < 26 {
        (65 + v) as char
    } else if v < 52 {
        (97 + v - 26) as char
    } else if v < 62 {
        (48 + v - 52) as char
    } else if v == 62 {
        '+'
    } else {
        '/'
    }
}

/// Standard (padded) base64 of `data`: each group of three bytes as four
/// characters of six bits each, a last group of one or two bytes padded
/// with `=`.
pub open spec fn base64_standard(data: Seq<u8>) -> Seq<char>
    decreases data.len(),
{
    if data.len() == 0 {
        Seq::empty()
    } else if data.len() == 1 {
        let a = data[0] as int;
        seq![base64_char(a / 4), base64_char((a % 4) * 16), '=', '=']
    } else if data.len() == 2 {
        let (a, b) = (data[0] as int, data[1] as int);
        seq![base64_char(a / 4), base64_char((a % 4) * 16 + b / 16), base64_char((b % 16) * 4), '=']
    } else {
        let (a, b, c) = (data[0] as int, data[1] as int, data[2] as int);
        seq![base64_char(a / 4), base64_char((a % 4) * 16 + b / 16), base64_char((b % 16) * 4 + c / 64), base64_char(c % 64)]
            + base64_standard(data.skip(3))
    }
}

/// `sha1::Sha1::digest`.  Claimed: the 20-byte digest is `sha1_digest(data@)`.
#[verifier::external_body]
fn sha1(data: &[u8]) -> (d: Vec<u8>)
    ensures
        d@ == sha1_digest(data@),
{
    <sha1::Sha1 as sha1::Digest>::digest(data).to_vec()
}

/// `base64::engine::general_purpose::STANDARD.encode`.  Claimed: the result
/// is `base64_standard(data@)`.
#[verifier::external_body]
fn base64_encode(data: &[u8]) -> (s: String)
    ensures
        s@ == base64_standard(data@),
{
    base64::Engine::encode(&base64::engine::general_purpose::STANDARD, data)
}

/// The `Sec-WebSocket-Accept` value for a client key: base64 of the SHA-1
/// of the key followed by the RFC 6455 GUID.
pub fn compute_ws_accept(key: &str) -> (r: String)
    ensures
        r@ == base64_standard(sha1_digest(encode_utf8(key@) + encode_utf8(ws_guid()))),
{
    let mut data = vstd::slice::slice_to_vec(key.as_bytes());
    let mut guid = vstd::slice::slice_to_vec("258EAFA5-E914-47DA-95CA-C5AB0DC85B11".as_bytes());
    data.append(&mut guid);
    let digest = sha1(data.as_slice());
    base64_encode(digest.as_slice())
}

/// Appends the UTF-8 bytes of `s`.
pub fn push_str_bytes(out: &mut Vec<u8>, s: &str)
    ensures
        final(out)@ == old(out)@ + encode_utf8(s@),
{
    let b = s.as_bytes();
    let ghost head = out@;
    let mut i: usize = 0;
    while i < b.len()
        invariant
            i <= b@.len(),
            b@ == encode_utf8(s@),
            out@ == head + b@.take(i as int),
        decreases b@.len() - i,
    {
        out.push(b[i]);
        assert(b@.take(i + 1) =~= b@.take(i as int).push(b@[i as int]));
        i = i + 1;
    }
    assert(b@.take(b@.len() as int) =~= b@);
}

/// The status line of a response.
pub open spec fn status_line(status: u16) -> Seq<char> {
    "HTTP/1.1 "@ + decimal(status as nat) + " "@ + reason_text(status) + "\r\n"@
}

/// The header lines of a response, each `name: value` and CRLF, as bytes.
pub open spec fn header_bytes(hs: Seq<(Seq<char>, Seq<char>)>) -> Seq<u8>
    decreases hs.len(),
{
    if hs.len() == 0 {
        Seq::empty()
    } else {
        header_bytes(hs.drop_last()) + encode_utf8(hs.last().0 + ": "@ + hs.last().1 + "\r\n"@)
    }
}

/// The `Content-Length` line and the blank line that ends the head.
pub open spec fn content_length_line(len: nat) -> Seq<char> {
    "Content-Length: "@ + decimal(len) + "\r\n\r\n"@
}

/// The bytes of a serialized response: status line, headers in order,
/// `Content-Length`, blank line, body.
pub open spec fn response_bytes(status: u16, hs: Seq<(Seq<char>, Seq<char>)>, body: Seq<u8>) -> Seq<u8> {
    encode_utf8(status_line(status)) + header_bytes(hs) + encode_utf8(content_length_line(body.len()))
        + body
}

/// Serializes a response for the wire.
pub fn serialize_response(response: &Response) -> (r: Vec<u8>)
    ensures
        r@ == response_bytes(response.status, pair_views(response.headers@), response.body@),
{
    let mut buf: Vec<u8> = Vec::new();
    let code = decimal_string(response.status as u64);
    let l1 = concat("HTTP/1.1 ", code.as_str());
    let l2 = concat(l1.as_str(), " ");
    let l3 = concat(l2.as_str(), reason_phrase(response.status));
    let l4 = concat(l3.as_str(), "\r\n");
    push_str_bytes(&mut buf, l4.as_str());
    assert(l4@ =~= status_line(response.status));
    let ghost hv = pair_views(response.headers@);
    let mut i: usize = 0;
    assert(hv.take(0) =~= Seq::<(Seq<char>, Seq<char>)>::empty());
    while i < response.headers.len()
        invariant
            hv == pair_views(response.headers@),
            i <= hv.len(),
            buf@ == encode_utf8(status_line(response.status)) + header_bytes(hv.take(i as int)),
        decreases hv.len() - i,
    {
        let (k, v) = (&response.headers[i].0, &response.headers[i].1);
        let a = concat(k.as_str(), ": ");
        let b = concat(a.as_str(), v.as_str());
        let c = concat(b.as_str(), "\r\n");
        push_str_bytes(&mut buf, c.as_str());
        proof {
            assert(hv.take(i + 1).drop_last() =~= hv.take(i as int));
            assert(hv.take(i + 1).last() == (k@, v@));
            assert(c@ =~= k@ + ": "@ + v@ + "\r\n"@);
        }
        i = i + 1;
    }
    assert(hv.take(hv.len() as int) =~= hv);
    let n = decimal_string(response.body.len() as u64);
    let m1 = concat("Content-Length: ", n.as_str());
    let m2 = concat(m1.as_str(), "\r\n\r\n");
    push_str_bytes(&mut buf, m2.as_str());
    assert(m2@ =~= content_length_line(response.body@.len()));
    let ghost head = buf@;
    let mut j: usize = 0;
    while j < response.body.len()
        invariant
            j <= response.body@.len(),
            buf@ == head + response.body@.take(j as int),
        decreases response.body@.len() - j,
    {
        buf.push(response.body[j]);
        assert(response.body@.take(j + 1) =~= response.body@.take(j as int).push(response.body@[j as int]));
        j = j + 1;
    }
    assert(response.body@.take(response.body@.len() as int) =~= response.body@);
    buf
}

/// The head of the `101 Switching Protocols` answer to a WebSocket upgrade
/// (it carries no `Content-Length`).
pub open spec fn upgrade_text(accept_key: Seq<char>) -> Seq<char> {
    "HTTP/1.1 101 Switching Protocols\r\nUpgrade: websocket\r\nConnection: Upgrade\r\nSec-WebSocket-Accept: "@
        + accept_key + "\r\nServer: Ferrum-Core/0.7.0\r\n\r\n"@
}

/// Builds the `101 Switching Protocols` response for an accepted key.
pub fn upgrade_response(accept_key: &str) -> (r: String)
    ensures
        r@ == upgrade_text(accept_key@),
{
    let a = concat(
        "HTTP/1.1 101 Switching Protocols\r\nUpgrade: websocket\r\nConnection: Upgrade\r\nSec-WebSocket-Accept: ",
        accept_key,
    );
    concat(a.as_str(), "\r\nServer: Ferrum-Core/0.7.0\r\n\r\n")
}

/// True when the four bytes of `b` from `i` are CR LF CR LF.
pub open spec fn crlfcrlf_at(b: Seq<u8>, i: int) -> bool {
    0 <= i && i + 4 <= b.len() && b[i] == 13u8 && b[i + 1] == 10u8 && b[i + 2] == 13u8 && b[i + 3]
        == 10u8
}

/// Finds where the header terminator `\r\n\r\n` first starts.
pub fn find_header_end(b: &[u8]) -> (r: Option<usize>)
    ensures
        r matches Some(i) ==> crlfcrlf_at(b@, i as int) && forall|j: int|
            0 <= j < i ==> !crlfcrlf_at(b@, j),
        r is None ==> forall|j: int| 0 <= j < b@.len() ==> !crlfcrlf_at(b@, j),
{
    let n = b.len();
    let mut i: usize = 0;
    while n >= 4 && i <= n - 4
        invariant
            n == b@.len(),
            forall|j: int| 0 <= j < i ==> !crlfcrlf_at(b@, j),
        decreases n - i,
    {
        if b[i] == 13u8 && b[i + 1] == 10u8 && b[i + 2] == 13u8 && b[i + 3] == 10u8 {
            return Some(i);
        }
        i = i + 1;
    }
    None
}

/// Largest request body accepted: 32 MiB.
pub const MAX_BODY: usize = 33554432;

/// What the `Content-Length` header asks for: `None` when it is absent or
/// not a number, too large beyond 32 MiB.
pub open spec fn content_length_spec(hs: Seq<(Seq<char>, Seq<char>)>) -> Result<Option<usize>, ()> {
    match lookup(hs, "content-length"@) {
        None => Ok(None),
        Some(v) => match parse_usize_spec(v) {
            None => Ok(None),
            Some(n) => if n > MAX_BODY {
                Err(())
            } else {
                Ok(Some(n))
            },
        },
    }
}

/// Reads the body length from the (lowercased) headers.
pub fn content_length(headers: &Vec<(String, String)>) -> (r: Result<Option<usize>, HttpError>)
    ensures
        match content_length_spec(pair_views(headers@)) {
            Ok(n) => r == Ok::<Option<usize>, HttpError>(n),
            Err(_) => r matches Err(HttpError::PayloadTooLarge),
        },
{
    match find_pair(headers, "content-length") {
        None => Ok(None),
        Some(v) => {
            let cs = chars_of(v.as_str());
            match parse_usize(cs.as_slice()) {
                None => Ok(None),
                Some(n) => if n > MAX_BODY {
                    Err(HttpError::PayloadTooLarge)
                } else {
                    Ok(Some(n))
                },
            }
        },
    }
}

/// The body bytes that arrived with the head: those of `buf[body_start..n]`,
/// at most `cl` of them.
pub fn buffered_body(buf: &[u8], body_start: usize, n: usize, cl: usize) -> (r: Vec<u8>)
    requires
        body_start <= n <= buf@.len(),
    ensures
        r@ == buf@.subrange(body_start as int, body_start + if n - body_start < cl {
            n - body_start
        } else {
            cl as int
        }),
{
    let already = n - body_start;
    let take = if already < cl {
        already
    } else {
        cl
    };
    slice_range(buf, body_start, body_start + take)
}

/// Parses the head of a request (the bytes before `\r\n\r\n`): it must
/// be UTF-8, then the request line and headers are read.
pub fn parse_head(head: &[u8]) -> (r: Result<
    (Method, String, HttpVersion, Vec<(String, String)>),
    HttpError,
>)
    ensures
        !valid_utf8(head@) ==> (r matches Err(HttpError::Parse(e)) && e@ == "Non-UTF-8 headers: "@
            + utf8_error_text(head@)),
        valid_utf8(head@) ==> match parsed_header_section(decode_utf8(head@)) {
            Ok((m, path, v, hs)) => r matches Ok(t) && t.0 == m && t.1@ == path && t.2 == v
                && pair_views(t.3@) == hs,
            Err(msg) => r matches Err(HttpError::Parse(e)) && e@ == msg,
        },
{
    let bytes = vstd::slice::slice_to_vec(head);
    match utf8_string(bytes) {
        Ok(s) => parse_header_section(s.as_str()),
        Err(e) => Err(HttpError::Parse(concat("Non-UTF-8 headers: ", e.as_str()))),
    }
}

/// Tunables of the server.
pub struct ServerConfig {
    /// Maximum simultaneous connections across HTTP and HTTPS.
    pub max_conns: usize,
    /// Seconds to wait for a request head.
    pub parse_timeout_secs: u64,
    /// Seconds a handler may take.
    pub handler_timeout_secs: u64,
}

impl Default for ServerConfig {
    fn default() -> (r: Self)
        ensures
            r.max_conns == 1024 && r.parse_timeout_secs == 30 && r.handler_timeout_secs == 60,
    {
        ServerConfig { max_conns: 1024, parse_timeout_secs: 30, handler_timeout_secs: 60 }
    }
}

/// What a WebSocket handler learns of the upgrade request.
pub struct WsContext {
    pub path: String,
    pub params: Vec<(String, String)>,
    pub headers: Vec<(String, String)>,
}

/// The `Sec-WebSocket-Accept` value for a client key.
pub open spec fn accept_key_for(key: Seq<char>) -> Seq<char> {
    base64_standard(sha1_digest(encode_utf8(key) + encode_utf8(ws_guid())))
}

/// What the connection loop does with one parsed request.
pub enum Dispatch<'a, H, W> {
    /// Run the HTTP handler on the request, with these path parameters.
    Call(&'a H, Vec<(String, String)>),
    /// Answer `101` with this accept key and hand the connection to the
    /// WebSocket handler; the loop ends.
    Upgrade(&'a W, Vec<(String, String)>, String),
    /// Answer with this status and no handler (`404`: no route; `400`: an
    /// upgrade without a key, after which the loop ends).
    Respond(u16),
}

/// Routes one request: which handler runs, or which status answers it.
pub fn dispatch<'a, H, W>(router: &'a Router<H, W>, req: &Request) -> (r: Dispatch<'a, H, W>)
    ensures
        no_route_matches(router.routes@, req.method, path_segments(req.path@)) ==> r matches Dispatch::Respond(
            404,
        ),
        forall|i: int|
            is_first_match(router.routes@, req.method, path_segments(req.path@), i) ==> {
                let params = captured_params(
                    pattern_view(router.routes@[i].pattern@),
                    path_segments(req.path@),
                );
                match router.routes@[i].target {
                    RouteTarget::Http(h) => r matches Dispatch::Call(h2, ps) && h2 == &h
                        && pair_views(ps@) == params,
                    RouteTarget::WebSocket(w) => match lookup(
                        pair_views(req.headers@),
                        "sec-websocket-key"@,
                    ) {
                        None => r matches Dispatch::Respond(400),
                        Some(k) => r matches Dispatch::Upgrade(w2, ps, a) && w2 == &w && pair_views(
                            ps@,
                        ) == params && a@ == accept_key_for(k),
                    },
                }
            },
{
    match router.match_route(&req.method, req.path.as_str()) {
        None => Dispatch::Respond(404),
        Some((target, params)) => match target {
            RouteTarget::Http(h) => Dispatch::Call(h, params),
            RouteTarget::WebSocket(w) => match find_pair(&req.headers, "sec-websocket-key") {
                None => Dispatch::Respond(400),
                Some(k) => Dispatch::Upgrade(w, params, compute_ws_accept(k.as_str())),
            },
        },
    }
}

/// Whether the connection stays open after answering `req`.
pub fn request_keep_alive(req: &Request) -> (r: bool)
    ensures
        r == keep_alive_spec(req.version, lookup(pair_views(req.headers@), "connection"@)),
{
    match find_pair(&req.headers, "connection") {
        Some(v) => req.version.should_keep_alive(Some(v.as_str())),
        None => req.version.should_keep_alive(None),
    }
}

/// `hs` without the pairs named `name`.
pub open spec fn without_name(hs: Seq<(Seq<char>, Seq<char>)>, name: Seq<char>) -> Seq<(Seq<char>, Seq<char>)>
    decreases hs.len(),
{
    if hs.len() == 0 {
        Seq::empty()
    } else {
        without_name(hs.drop_last(), name) + if hs.last().0 == name { Seq::empty() } else { seq![hs.last()] }
    }
}

/// Removes every header named `name` (a map's `remove`).
pub fn remove_header(headers: &mut Vec<(String, String)>, name: &str)
    ensures
        pair_views(final(headers)@) == without_name(pair_views(old(headers)@), name@),
{
    let ghost hv = pair_views(old(headers)@);
    let mut kept: Vec<(String, String)> = Vec::new();
    let mut i: usize = 0;
    assert(hv.take(0) =~= Seq::<(Seq<char>, Seq<char>)>::empty());
    while i < headers.len()
        invariant
            i <= headers@.len(),
            headers@ == old(headers)@,
            hv == pair_views(headers@),
            pair_views(kept@) == without_name(hv.take(i as int), name@),
        decreases headers@.len() - i,
    {
        proof {
            assert(hv.take(i + 1).drop_last() =~= hv.take(i as int));
            assert(hv[i as int] == (headers@[i as int].0@, headers@[i as int].1@));
        }
        if !str_eq(headers[i].0.as_str(), name) {
            let ghost before = pair_views(kept@);
            kept.push((headers[i].0.clone(), headers[i].1.clone()));
            assert(pair_views(kept@) =~= before.push(hv[i as int]));
        }
        i = i + 1;
    }
    assert(hv.take(headers@.len() as int) =~= hv);
    *headers = kept;
}

/// Sets header `name` to `value`, replacing any value it had (a map's
/// `insert`).
pub fn set_header(headers: &mut Vec<(String, String)>, name: String, value: String)
    ensures
        pair_views(final(headers)@) == without_name(pair_views(old(headers)@), name@).push((name@, value@)),
{
    remove_header(headers, name.as_str());
    let ghost before = pair_views(headers@);
    let ghost nv = (name@, value@);
    headers.push((name, value));
    assert(pair_views(headers@) =~= before.push(nv));
}

/// The address part of a socket address's text (`ip:port`, or
/// `[ip]:port` with an optional `%scope` for IPv6).
pub open spec fn ip_of(addr: Seq<char>) -> Seq<char> {
    if addr.len() > 0 && addr[0] == '[' {
        let inner = addr.skip(1);
        let end = if index_of(inner, '%') >= 0 && (index_of(inner, ']') < 0 || index_of(inner, '%') < index_of(inner, ']')) {
            index_of(inner, '%')
        } else if index_of(inner, ']') >= 0 {
            index_of(inner, ']')
        } else {
            inner.len() as int
        };
        inner.take(end)
    } else {
        let r = last_index_of(addr, ':');
        if r >= 0 { addr.take(r) } else { addr }
    }
}

/// The last position of `c` in `s`, or -1.
pub open spec fn last_index_of(s: Seq<char>, c: char) -> int
    decreases s.len(),
{
    if s.len() == 0 {
        -1
    } else if s.last() == c {
        s.len() - 1
    } else {
        last_index_of(s.drop_last(), c)
    }
}

/// The address part of a peer's socket address text.
pub fn peer_ip(addr: &str) -> (r: String)
    ensures
        r@ == ip_of(addr@),
{
    let cs = chars_of(addr);
    if cs.len() > 0 && cs[0] == '[' {
        let inner = slice_range(cs.as_slice(), 1, cs.len());
        assert(inner@ =~= addr@.skip(1));
        proof {
            lemma_index_of(inner@, '%');
            lemma_index_of(inner@, ']');
        }
        let pct = find_char(inner.as_slice(), '%');
        let br = find_char(inner.as_slice(), ']');
        let end: usize = match (pct, br) {
            (Some(p), Some(b)) => if p < b { p } else { b },
            (Some(p), None) => p,
            (None, Some(b)) => b,
            (None, None) => inner.len(),
        };
        proof {
            match pct {
                Some(p) => lemma_index_of_first(inner@, '%', p as int),
                None => lemma_index_of_absent(inner@, '%'),
            }
            match br {
                Some(b) => lemma_index_of_first(inner@, ']', b as int),
                None => lemma_index_of_absent(inner@, ']'),
            }
        }
        string_from_chars(slice_range(inner.as_slice(), 0, end).as_slice())
    } else {
        let mut j: usize = cs.len();
        assert(cs@.take(j as int) =~= cs@);
        while j > 0 && cs[j - 1] != ':'
            invariant
                j <= cs@.len(),
                cs@ == addr@,
                last_index_of(cs@, ':') == last_index_of(cs@.take(j as int), ':'),
            decreases j,
        {
            assert(cs@.take(j as int).drop_last() =~= cs@.take(j - 1));
            j = j - 1;
        }
        if j == 0 {
            assert(last_index_of(cs@.take(0), ':') == -1);
            string_from_chars(cs.as_slice())
        } else {
            assert(cs@.take(j as int).last() == ':');
            string_from_chars(slice_range(cs.as_slice(), 0, j - 1).as_slice())
        }
    }
}

/// A copy of name/value pairs.
pub fn copy_pairs(hs: &Vec<(String, String)>) -> (r: Vec<(String, String)>)
    ensures
        pair_views(r@) == pair_views(hs@),
{
    let mut out: Vec<(String, String)> = Vec::new();
    let mut i: usize = 0;
    while i < hs.len()
        invariant
            i <= hs@.len(),
            pair_views(out@) == pair_views(hs@).take(i as int),
        decreases hs@.len() - i,
    {
        let ghost before = pair_views(out@);
        out.push((hs[i].0.clone(), hs[i].1.clone()));
        assert(pair_views(out@) =~= before.push((hs@[i as int].0@, hs@[i as int].1@)));
        assert(pair_views(hs@).take(i + 1) =~= pair_views(hs@).take(i as int).push((hs@[i as int].0@, hs@[i as int].1@)));
        i = i + 1;
    }
    assert(pair_views(hs@).take(hs@.len() as int) =~= pair_views(hs@));
    out
}

/// A route serves its own path: the segments of the path it was added with
/// match its pattern.
pub proof fn route_matches_own_path(path: Seq<char>)
    ensures
        segments_match(path_segments(path), path_segments(path)),
{
}

/// A pattern without parameters matches exactly the paths with the same
/// segments.
pub proof fn literal_pattern_matches_only_itself(pattern: Seq<Seq<char>>, segs: Seq<Seq<char>>)
    requires
        forall|k: int| 0 <= k < pattern.len() ==> !is_param(#[trigger] pattern[k]),
    ensures
        segments_match(pattern, segs) <==> pattern == segs,
{
    if segments_match(pattern, segs) {
        assert(pattern =~= segs);
    }
}

} // verus!
