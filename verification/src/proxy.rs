//! The reverse proxy's decisions: locations and longest-prefix routing,
//! static file paths, forwarded headers, and response caching rules.

use vstd::prelude::*;
use crate::text::{
    ascii_lower_seq, chars_of, concat, has_prefix, owned, parse_u64, parse_u64_spec, hex_char, hex_digit,
    slice_range, split_char, split_chars, starts_with, str_eq, string_from_chars, to_ascii_lowercase,
    trim, trim_bounds, views,
};

verus! {

/// Errors of the reverse proxy.
#[derive(Debug)]
pub enum ProxyError {
    MissingLocations,
    InvalidLocation(String),
    Io(String),
    Yaml(String),
    Notify(String),
    Request(String),
    WebSocket(String),
    Http(String),
    InvalidHeaderValue(String),
    InvalidUri(String),
}

/// The message of a proxy error.
pub open spec fn proxy_error_text(e: ProxyError) -> Seq<char> {
    match e {
        ProxyError::MissingLocations => "proxy config must contain at least one location"@,
        ProxyError::InvalidLocation(p) => "location `"@ + p@ + "` must define exactly one of upstream/static_dir/websocket"@,
        ProxyError::Io(m) => "io error: "@ + m@,
        ProxyError::Yaml(m) => "yaml error: "@ + m@,
        ProxyError::Notify(m) => "notify error: "@ + m@,
        ProxyError::Request(m) => "request error: "@ + m@,
        ProxyError::WebSocket(m) => "websocket error: "@ + m@,
        ProxyError::Http(m) => "http error: "@ + m@,
        ProxyError::InvalidHeaderValue(m) => "invalid header value: "@ + m@,
        ProxyError::InvalidUri(m) => "invalid uri: "@ + m@,
    }
}

impl ProxyError {
    /// The error's message.
    pub fn message(&self) -> (r: String)
        ensures
            r@ == proxy_error_text(*self),
    {
        match self {
            ProxyError::MissingLocations => owned("proxy config must contain at least one location"),
            ProxyError::InvalidLocation(p) => {
                let a = concat("location `", p.as_str());
                concat(a.as_str(), "` must define exactly one of upstream/static_dir/websocket")
            },
            ProxyError::Io(m) => concat("io error: ", m.as_str()),
            ProxyError::Yaml(m) => concat("yaml error: ", m.as_str()),
            ProxyError::Notify(m) => concat("notify error: ", m.as_str()),
            ProxyError::Request(m) => concat("request error: ", m.as_str()),
            ProxyError::WebSocket(m) => concat("websocket error: ", m.as_str()),
            ProxyError::Http(m) => concat("http error: ", m.as_str()),
            ProxyError::InvalidHeaderValue(m) => concat("invalid header value: ", m.as_str()),
            ProxyError::InvalidUri(m) => concat("invalid uri: ", m.as_str()),
        }
    }
}

/// One location of the proxy's configuration.
#[derive(Debug, Clone)]
pub struct LocationConfig {
    pub path: String,
    pub upstream: Option<String>,
    pub static_dir: Option<String>,
    pub websocket: Option<String>,
}

/// The response cache's tunables.
#[derive(Debug, Clone, Copy)]
pub struct ProxyCacheConfig {
    pub max_entries: u64,
    pub default_ttl_secs: u64,
}

impl Default for ProxyCacheConfig {
    fn default() -> (r: Self)
        ensures
            r.max_entries == 1024 && r.default_ttl_secs == 30,
    {
        ProxyCacheConfig { max_entries: 1024, default_ttl_secs: 30 }
    }
}

/// The proxy's configuration.
#[derive(Debug, Clone)]
pub struct ReverseProxyConfig {
    pub listen_addr: String,
    pub locations: Vec<LocationConfig>,
    pub cache: ProxyCacheConfig,
}

/// Where a location sends requests.
#[derive(Debug, Clone, PartialEq, Eq)]
pub enum LocationTarget {
    Upstream(String),
    StaticDir(String),
    WebSocket(String),
}

/// A checked location.
#[derive(Debug, Clone, PartialEq, Eq)]
pub struct LocationRoute {
    pub path: String,
    pub target: LocationTarget,
}

/// True for a location that names exactly one target.
pub open spec fn one_target(c: LocationConfig) -> bool {
    (if c.upstream is Some { 1int } else { 0int }) + (if c.static_dir is Some { 1int } else { 0int }) + (if c.websocket is Some { 1int } else { 0int }) == 1
}

/// The route a valid location gives.
pub open spec fn route_of(c: LocationConfig, r: LocationRoute) -> bool {
    r.path@ == c.path@ && match (c.upstream, c.static_dir, c.websocket) {
        (Some(u), _, _) => r.target matches LocationTarget::Upstream(x) && x@ == u@,
        (None, Some(d), _) => r.target matches LocationTarget::StaticDir(x) && x@ == d@,
        (None, None, Some(w)) => r.target matches LocationTarget::WebSocket(x) && x@ == w@,
        _ => false,
    }
}

impl LocationRoute {
    /// A copy of the route.
    pub fn duplicate(&self) -> (r: LocationRoute)
        ensures
            r == *self,
    {
        let target = match &self.target {
            LocationTarget::Upstream(u) => LocationTarget::Upstream(u.clone()),
            LocationTarget::StaticDir(d) => LocationTarget::StaticDir(d.clone()),
            LocationTarget::WebSocket(w) => LocationTarget::WebSocket(w.clone()),
        };
        LocationRoute { path: self.path.clone(), target }
    }

    /// Checks a location: it must name exactly one of upstream, static
    /// directory and WebSocket upstream.
    pub fn from_config(config: &LocationConfig) -> (r: Result<LocationRoute, ProxyError>)
        ensures
            one_target(*config) ==> (r matches Ok(route) && route_of(*config, route)),
            !one_target(*config) ==> (r matches Err(ProxyError::InvalidLocation(p)) && p@ == config.path@),
    {
        let n: u8 = (if config.upstream.is_some() { 1u8 } else { 0u8 }) + (if config.static_dir.is_some() { 1u8 } else { 0u8 })
            + (if config.websocket.is_some() { 1u8 } else { 0u8 });
        if n != 1 {
            return Err(ProxyError::InvalidLocation(config.path.clone()));
        }
        let target = match &config.upstream {
            Some(u) => LocationTarget::Upstream(u.clone()),
            None => match &config.static_dir {
                Some(d) => LocationTarget::StaticDir(d.clone()),
                None => match &config.websocket {
                    Some(w) => LocationTarget::WebSocket(w.clone()),
                    None => LocationTarget::WebSocket(String::new()),
                },
            },
        };
        Ok(LocationRoute { path: config.path.clone(), target })
    }
}

/// Checks every location of a configuration (as loading one does); the
/// first invalid location is reported.
pub fn validate_locations(config: &ReverseProxyConfig) -> (r: Result<(), ProxyError>)
    ensures
        r is Ok <==> (forall|i: int| 0 <= i < config.locations@.len() ==> one_target(#[trigger] config.locations@[i])),
        r matches Err(e) ==> exists|i: int| 0 <= i < config.locations@.len() && !one_target(config.locations@[i])
            && (forall|k: int| 0 <= k < i ==> one_target(#[trigger] config.locations@[k]))
            && (e matches ProxyError::InvalidLocation(p) && p@ == config.locations@[i].path@),
{
    let mut i: usize = 0;
    while i < config.locations.len()
        invariant
            i <= config.locations@.len(),
            forall|k: int| 0 <= k < i ==> one_target(#[trigger] config.locations@[k]),
        decreases config.locations@.len() - i,
    {
        match LocationRoute::from_config(&config.locations[i]) {
            Ok(_) => {},
            Err(e) => {
                return Err(e);
            },
        }
        i = i + 1;
    }
    Ok(())
}

/// The proxy's routing table.
pub struct ProxyRoutes {
    pub routes: Vec<LocationRoute>,
}

/// True when `route` may serve a path of a plain (or WebSocket) request.
pub open spec fn serves(route: LocationRoute, path: Seq<char>, websocket: bool) -> bool {
    has_prefix(path, route.path@) && (route.target is WebSocket) == websocket
}

/// True when route `j` is the one a request picks: among those that serve
/// it, the one with the longest path, the last of them on a tie.
pub open spec fn picked_route(routes: Seq<LocationRoute>, path: Seq<char>, websocket: bool, j: int) -> bool {
    &&& 0 <= j < routes.len()
    &&& serves(routes[j], path, websocket)
    &&& forall|i: int| 0 <= i < routes.len() && serves(#[trigger] routes[i], path, websocket) ==> routes[i].path@.len() <= routes[j].path@.len()
    &&& forall|i: int| j < i < routes.len() && serves(#[trigger] routes[i], path, websocket) ==> routes[i].path@.len() < routes[j].path@.len()
}

impl ProxyRoutes {
    /// The routes of a configuration, which needs at least one location,
    /// each valid.
    pub fn from_config(config: &ReverseProxyConfig) -> (r: Result<ProxyRoutes, ProxyError>)
        ensures
            config.locations@.len() == 0 ==> r matches Err(ProxyError::MissingLocations),
            config.locations@.len() > 0 && (forall|i: int| 0 <= i < config.locations@.len() ==> one_target(#[trigger] config.locations@[i]))
                ==> (r matches Ok(p) && p.routes@.len() == config.locations@.len() && forall|i: int|
                0 <= i < p.routes@.len() ==> route_of(config.locations@[i], #[trigger] p.routes@[i])),
            r matches Err(ProxyError::InvalidLocation(p)) ==> exists|i: int| 0 <= i < config.locations@.len()
                && !one_target(config.locations@[i]) && p@ == config.locations@[i].path@
                && (forall|k: int| 0 <= k < i ==> one_target(#[trigger] config.locations@[k])),
            r matches Err(e) ==> (e is MissingLocations || e is InvalidLocation),
    {
        if config.locations.len() == 0 {
            return Err(ProxyError::MissingLocations);
        }
        let mut routes: Vec<LocationRoute> = Vec::new();
        let mut i: usize = 0;
        while i < config.locations.len()
            invariant
                i <= config.locations@.len(),
                routes@.len() == i,
                forall|k: int| 0 <= k < i ==> one_target(#[trigger] config.locations@[k]),
                forall|k: int| 0 <= k < i ==> route_of(config.locations@[k], #[trigger] routes@[k]),
            decreases config.locations@.len() - i,
        {
            match LocationRoute::from_config(&config.locations[i]) {
                Ok(route) => {
                    routes.push(route);
                },
                Err(e) => {
                    return Err(e);
                },
            }
            i = i + 1;
        }
        Ok(ProxyRoutes { routes })
    }

    /// The route for `path`: the longest matching location of the right
    /// kind (WebSocket locations for upgrades, the others otherwise).
    pub fn match_route(&self, path: &str, websocket: bool) -> (r: Option<LocationRoute>)
        ensures
            r is None <==> forall|i: int| 0 <= i < self.routes@.len() ==> !serves(#[trigger] self.routes@[i], path@, websocket),
            r matches Some(route) ==> exists|j: int| picked_route(self.routes@, path@, websocket, j) && route == self.routes@[j],
    {
        let mut best: Option<usize> = None;
        let mut best_len: usize = 0;
        let mut i: usize = 0;
        let ghost rs = self.routes@;
        while i < self.routes.len()
            invariant
                i <= rs.len(),
                rs == self.routes@,
                best is None ==> forall|k: int| 0 <= k < i ==> !serves(#[trigger] rs[k], path@, websocket),
                best matches Some(j) ==> j < i && serves(rs[j as int], path@, websocket) && best_len == rs[j as int].path@.len()
                    && (forall|k: int| 0 <= k < i && serves(#[trigger] rs[k], path@, websocket) ==> rs[k].path@.len() <= best_len)
                    && (forall|k: int| j < k < i && serves(#[trigger] rs[k], path@, websocket) ==> rs[k].path@.len() < best_len),
            decreases rs.len() - i,
        {
            let route = &self.routes[i];
            let is_ws = match route.target {
                LocationTarget::WebSocket(_) => true,
                _ => false,
            };
            if is_ws == websocket && crate::text::str_starts_with(path, route.path.as_str()) {
                let plen = chars_of(route.path.as_str()).len();
                match best {
                    None => {
                        best = Some(i);
                        best_len = plen;
                    },
                    Some(_) => {
                        if plen >= best_len {
                            best = Some(i);
                            best_len = plen;
                        }
                    },
                }
            }
            i = i + 1;
        }
        match best {
            None => None,
            Some(j) => Some(self.routes[j].duplicate()),
        }
    }
}

/// What the proxy does with a plain request.
#[derive(Debug, PartialEq, Eq)]
pub enum HttpAction {
    /// Serve a file under `dir`, the location's path being `prefix`.
    Static { prefix: String, dir: String },
    /// Forward to `upstream`.
    Forward { upstream: String },
    /// Answer with a status and a message.
    Reply { status: u16, message: String },
}

/// `s` without trailing `c` characters.
pub open spec fn trim_end_char(s: Seq<char>, c: char) -> Seq<char>
    decreases s.len(),
{
    if s.len() > 0 && s.last() == c {
        trim_end_char(s.drop_last(), c)
    } else {
        s
    }
}

/// `s` without leading `c` characters.
pub open spec fn trim_start_char(s: Seq<char>, c: char) -> Seq<char>
    decreases s.len(),
{
    if s.len() > 0 && s[0] == c {
        trim_start_char(s.drop_first(), c)
    } else {
        s
    }
}

/// Drops trailing `c` characters (std's `trim_end_matches` on a char).
pub fn trim_end_matches(s: &str, c: char) -> (r: String)
    ensures
        r@ == trim_end_char(s@, c),
{
    let cs = chars_of(s);
    let mut j: usize = cs.len();
    assert(cs@.take(j as int) =~= cs@);
    while j > 0 && cs[j - 1] == c
        invariant
            j <= cs@.len(),
            trim_end_char(cs@.take(j as int), c) == trim_end_char(s@, c),
            cs@ == s@,
        decreases j,
    {
        assert(cs@.take(j as int).drop_last() =~= cs@.take(j - 1));
        j = j - 1;
    }
    string_from_chars(slice_range(cs.as_slice(), 0, j).as_slice())
}

/// Drops leading `c` characters (std's `trim_start_matches` on a char).
pub fn trim_start_matches(s: &[char], c: char) -> (r: Vec<char>)
    ensures
        r@ == trim_start_char(s@, c),
{
    let mut i: usize = 0;
    assert(s@.skip(0) =~= s@);
    while i < s.len() && s[i] == c
        invariant
            i <= s@.len(),
            trim_start_char(s@.skip(i as int), c) == trim_start_char(s@, c),
        decreases s@.len() - i,
    {
        assert(s@.skip(i as int).drop_first() =~= s@.skip(i + 1));
        i = i + 1;
    }
    slice_range(s, i, s.len())
}

/// The message for a path no location serves.
pub open spec fn no_location_message(websocket: bool) -> Seq<char> {
    if websocket { "No matching websocket location"@ } else { "No matching proxy location"@ }
}

impl ProxyRoutes {
    /// Decides how a plain request for `path` is served.
    pub fn http_action(&self, path: &str) -> (r: HttpAction)
        ensures
            (forall|i: int| 0 <= i < self.routes@.len() ==> !serves(#[trigger] self.routes@[i], path@, false))
                ==> r == (HttpAction::Reply { status: 404, message: r->message })
                && r->message@ == no_location_message(false),
            forall|j: int| picked_route(self.routes@, path@, false, j) ==> match self.routes@[j].target {
                LocationTarget::StaticDir(d) => r matches HttpAction::Static { prefix, dir } && prefix@
                    == self.routes@[j].path@ && dir@ == d@,
                LocationTarget::Upstream(u) => r matches HttpAction::Forward { upstream } && upstream@ == u@,
                LocationTarget::WebSocket(_) => false,
            },
    {
        match self.match_route(path, false) {
            None => HttpAction::Reply { status: 404, message: owned("No matching proxy location") },
            Some(route) => {
                proof {
                    let j = choose|j: int| picked_route(self.routes@, path@, false, j) && route == self.routes@[j];
                    assert forall|k: int| picked_route(self.routes@, path@, false, k) implies k == j by {
                        if k < j { assert(self.routes@[j].path@.len() < self.routes@[k].path@.len() || !serves(self.routes@[j], path@, false)); }
                        if j < k { assert(self.routes@[k].path@.len() < self.routes@[j].path@.len()); }
                    }
                }
                match route.target {
                    LocationTarget::StaticDir(dir) => HttpAction::Static { prefix: route.path, dir },
                    LocationTarget::Upstream(upstream) => HttpAction::Forward { upstream },
                    LocationTarget::WebSocket(_) => HttpAction::Reply {
                        status: 400,
                        message: owned("WebSocket location requires Upgrade"),
                    },
                }
            },
        }
    }

    /// Decides where a WebSocket upgrade for `path` goes: the upstream URL
    /// (the location's upstream without trailing slashes, then the request's
    /// path and query), or the status and message that refuse it.
    pub fn websocket_target(&self, path: &str, path_and_query: &str) -> (r: Result<String, (u16, String)>)
        ensures
            (forall|i: int| 0 <= i < self.routes@.len() ==> !serves(#[trigger] self.routes@[i], path@, true))
                ==> (r matches Err((status, m)) && status == 404 && m@ == no_location_message(true)),
            forall|j: int| picked_route(self.routes@, path@, true, j) ==> match self.routes@[j].target {
                LocationTarget::WebSocket(u) => r matches Ok(url) && url@ == trim_end_char(u@, '/') + path_and_query@,
                _ => false,
            },
    {
        match self.match_route(path, true) {
            None => Err((404, owned("No matching websocket location"))),
            Some(route) => {
                proof {
                    let j = choose|j: int| picked_route(self.routes@, path@, true, j) && route == self.routes@[j];
                    assert forall|k: int| picked_route(self.routes@, path@, true, k) implies k == j by {
                        if k < j { assert(self.routes@[j].path@.len() < self.routes@[k].path@.len() || !serves(self.routes@[j], path@, true)); }
                        if j < k { assert(self.routes@[k].path@.len() < self.routes@[j].path@.len()); }
                    }
                }
                match route.target {
                    LocationTarget::WebSocket(u) => {
                        let base = trim_end_matches(u.as_str(), '/');
                        Ok(concat(base.as_str(), path_and_query))
                    },
                    _ => Err((400, owned("Location is not a websocket upstream"))),
                }
            },
        }
    }
}

/// The file a static request names, as path segments under the location's
/// directory: the request path without the location prefix (when it has
/// it) and leading slashes, split at slashes, with empty and `.` segments
/// dropped; `None` when a segment is `..`.
pub open spec fn static_segments(prefix: Seq<char>, request_path: Seq<char>) -> Option<Seq<Seq<char>>> {
    let parts = static_parts(prefix, request_path);
    if has_parent_segment(parts) {
        None
    } else {
        Some(kept_segments(parts))
    }
}

/// The slash-separated parts of a static request path below the location.
pub open spec fn static_parts(prefix: Seq<char>, request_path: Seq<char>) -> Seq<Seq<char>> {
    let rest = if has_prefix(request_path, prefix) { request_path.skip(prefix.len() as int) } else { request_path };
    split_char(trim_start_char(rest, '/'), '/')
}

/// True when some part is `..`.
pub open spec fn has_parent_segment(parts: Seq<Seq<char>>) -> bool {
    exists|i: int| 0 <= i < parts.len() && parts[i] == seq!['.', '.']
}

/// The parts that name something: not empty and not `.`.
pub open spec fn kept_segments(parts: Seq<Seq<char>>) -> Seq<Seq<char>>
    decreases parts.len(),
{
    if parts.len() == 0 {
        Seq::empty()
    } else {
        kept_segments(parts.drop_last()) + if parts.last().len() > 0 && parts.last() != seq!['.'] {
            seq![parts.last()]
        } else {
            Seq::empty()
        }
    }
}

/// Resolves a static request to path segments below the location's
/// directory, refusing any that climbs out of it.
pub fn resolve_static_path(prefix: &str, request_path: &str) -> (r: Option<Vec<String>>)
    ensures
        match static_segments(prefix@, request_path@) {
            None => r is None,
            Some(segs) => r matches Some(v) && v@.map_values(|x: String| x@) == segs,
        },
{
    let cs = chars_of(request_path);
    let ps = chars_of(prefix);
    let rest = if starts_with(cs.as_slice(), ps.as_slice()) {
        slice_range(cs.as_slice(), ps.len(), cs.len())
    } else {
        slice_range(cs.as_slice(), 0, cs.len())
    };
    proof {
        assert(cs@.subrange(0, cs@.len() as int) =~= cs@);
        assert(cs@.subrange(ps@.len() as int, cs@.len() as int) =~= cs@.skip(ps@.len() as int));
    }
    let trimmed = trim_start_matches(rest.as_slice(), '/');
    let parts = split_chars(trimmed.as_slice(), '/');
    let ghost pv = views(parts@);
    let mut out: Vec<String> = Vec::new();
    let mut i: usize = 0;
    assert(pv.take(0) =~= Seq::<Seq<char>>::empty());
    assert(out@.map_values(|x: String| x@) =~= Seq::<Seq<char>>::empty());
    while i < parts.len()
        invariant
            i <= parts@.len(),
            pv == views(parts@),
            pv == static_parts(prefix@, request_path@),
            forall|k: int| 0 <= k < i ==> pv[k] != seq!['.', '.'],
            out@.map_values(|x: String| x@) == kept_segments(pv.take(i as int)),
        decreases parts@.len() - i,
    {
        let seg = &parts[i];
        assert(pv[i as int] == seg@);
        let is_dotdot = seg.len() == 2 && seg[0] == '.' && seg[1] == '.';
        assert(is_dotdot == (seg@ == seq!['.', '.'])) by {
            if is_dotdot {
                assert(seg@ =~= seq!['.', '.']);
            }
        }
        if is_dotdot {
            assert(has_parent_segment(pv));
            return None;
        }
        let is_dot = seg.len() == 1 && seg[0] == '.';
        assert(is_dot == (seg@ == seq!['.'])) by {
            if is_dot {
                assert(seg@ =~= seq!['.']);
            }
        }
        let ghost before = out@.map_values(|x: String| x@);
        proof {
            assert(pv.take(i + 1).drop_last() =~= pv.take(i as int));
        }
        if seg.len() > 0 && !is_dot {
            out.push(string_from_chars(seg.as_slice()));
            assert(out@.map_values(|x: String| x@) =~= before.push(seg@));
        } else {
            assert(out@.map_values(|x: String| x@) =~= before);
        }
        i = i + 1;
    }
    assert(pv.take(parts@.len() as int) =~= pv);
    assert(!has_parent_segment(pv));
    Some(out)
}

/// True for the headers that only concern one connection.
pub open spec fn hop_by_hop(name: Seq<char>) -> bool {
    name == "connection"@ || name == "keep-alive"@ || name == "proxy-authenticate"@
        || name == "proxy-authorization"@ || name == "te"@ || name == "trailer"@
        || name == "transfer-encoding"@ || name == "upgrade"@
}

/// Tests whether a (lowercase) header name is hop-by-hop.
pub fn is_hop_by_hop(name: &str) -> (r: bool)
    ensures
        r == hop_by_hop(name@),
{
    str_eq(name, "connection") || str_eq(name, "keep-alive") || str_eq(name, "proxy-authenticate")
        || str_eq(name, "proxy-authorization") || str_eq(name, "te") || str_eq(name, "trailer")
        || str_eq(name, "transfer-encoding") || str_eq(name, "upgrade")
}

/// True for a request header the proxy does not pass on.
pub open spec fn blocked_header(name: Seq<char>, websocket: bool) -> bool {
    let lower = ascii_lower_seq(name);
    hop_by_hop(lower) || lower == "host"@ || (!websocket && lower == "upgrade"@)
        || (!websocket && lower == "connection"@) || lower == "transfer-encoding"@
}

/// The request headers passed on, in order.
pub open spec fn forwarded_headers(hs: Seq<(Seq<char>, Seq<char>)>, websocket: bool) -> Seq<(Seq<char>, Seq<char>)>
    decreases hs.len(),
{
    if hs.len() == 0 {
        Seq::empty()
    } else {
        forwarded_headers(hs.drop_last(), websocket) + if blocked_header(hs.last().0, websocket) {
            Seq::empty()
        } else {
            seq![hs.last()]
        }
    }
}

/// The request headers passed on to an upstream: all but hop-by-hop
/// headers, `host` and `transfer-encoding` (and, except for WebSocket,
/// `upgrade` and `connection`).
pub fn filter_forward_headers(headers: &Vec<(String, String)>, websocket: bool) -> (r: Vec<(String, String)>)
    ensures
        crate::http::pair_views(r@) == forwarded_headers(crate::http::pair_views(headers@), websocket),
{
    let ghost hv = crate::http::pair_views(headers@);
    let mut out: Vec<(String, String)> = Vec::new();
    let mut i: usize = 0;
    assert(hv.take(0) =~= Seq::<(Seq<char>, Seq<char>)>::empty());
    while i < headers.len()
        invariant
            i <= headers@.len(),
            hv == crate::http::pair_views(headers@),
            crate::http::pair_views(out@) == forwarded_headers(hv.take(i as int), websocket),
        decreases headers@.len() - i,
    {
        let lower = to_ascii_lowercase(headers[i].0.as_str());
        let blocked = is_hop_by_hop(lower.as_str()) || str_eq(lower.as_str(), "host")
            || (!websocket && str_eq(lower.as_str(), "upgrade"))
            || (!websocket && str_eq(lower.as_str(), "connection"))
            || str_eq(lower.as_str(), "transfer-encoding");
        proof {
            assert(hv.take(i + 1).drop_last() =~= hv.take(i as int));
            assert(hv[i as int] == (headers@[i as int].0@, headers@[i as int].1@));
        }
        if !blocked {
            let ghost before = crate::http::pair_views(out@);
            out.push((headers[i].0.clone(), headers[i].1.clone()));
            assert(crate::http::pair_views(out@) =~= before.push(hv[i as int]));
        }
        i = i + 1;
    }
    assert(hv.take(headers@.len() as int) =~= hv);
    out
}

/// The proxy's own `Via` entry.
pub open spec fn via_entry() -> Seq<char> {
    "ferrum/1.0"@
}

/// The `Via` header sent upstream: the request's own, when it has a
/// nonempty one, followed by the proxy's entry.
pub fn append_via(existing: Option<&str>) -> (r: String)
    ensures
        r@ == match existing {
            Some(v) => if v@.len() > 0 { v@ + ", "@ + via_entry() } else { via_entry() },
            None => via_entry(),
        },
{
    match existing {
        Some(v) => {
            let cs = chars_of(v);
            if cs.len() > 0 {
                let a = concat(v, ", ");
                concat(a.as_str(), "ferrum/1.0")
            } else {
                owned("ferrum/1.0")
            }
        },
        None => owned("ferrum/1.0"),
    }
}

/// True for the methods whose responses are cached.
pub fn is_cacheable_method(method: &str) -> (r: bool)
    ensures
        r == (method@ == "GET"@ || method@ == "HEAD"@),
{
    str_eq(method, "GET") || str_eq(method, "HEAD")
}

/// The SHA-256 digest of `data`.
pub uninterp spec fn sha256_digest(data: Seq<u8>) -> Seq<u8>;

/// `sha2::Sha256::digest`.  Claimed: the result is `sha256_digest(data@)`.
#[verifier::external_body]
fn sha256(data: &[u8]) -> (d: Vec<u8>)
    ensures
        d@ == sha256_digest(data@),
{
    <sha2::Sha256 as sha2::Digest>::digest(data).to_vec()
}

/// Lowercase hexadecimal of bytes, two digits each.
pub open spec fn hex_bytes(b: Seq<u8>) -> Seq<char>
    decreases b.len(),
{
    if b.len() == 0 {
        Seq::empty()
    } else {
        hex_bytes(b.drop_last()) + seq![hex_digit((b.last() / 16) as nat), hex_digit((b.last() % 16) as nat)]
    }
}

/// Renders bytes as lowercase hexadecimal.
pub fn hex_string(b: &[u8]) -> (r: String)
    ensures
        r@ == hex_bytes(b@),
{
    let mut out: Vec<char> = Vec::new();
    let mut i: usize = 0;
    while i < b.len()
        invariant
            i <= b@.len(),
            out@ == hex_bytes(b@.take(i as int)),
        decreases b@.len() - i,
    {
        assert(b@.take(i + 1).drop_last() =~= b@.take(i as int));
        out.push(hex_char(b[i] / 16));
        out.push(hex_char(b[i] % 16));
        assert(out@ =~= hex_bytes(b@.take(i + 1)));
        i = i + 1;
    }
    assert(b@.take(b@.len() as int) =~= b@);
    string_from_chars(out.as_slice())
}

/// The bytes a cache key hashes: method, path and query, then `accept` and
/// `accept-encoding` with their values where the request has them.
pub open spec fn cache_key_input(method: Seq<char>, path_and_query: Seq<char>, accept: Option<Seq<char>>, accept_encoding: Option<Seq<char>>) -> Seq<u8> {
    vstd::utf8::encode_utf8(method) + vstd::utf8::encode_utf8(path_and_query) + match accept {
        Some(v) => vstd::utf8::encode_utf8("accept"@) + vstd::utf8::encode_utf8(v),
        None => Seq::empty(),
    } + match accept_encoding {
        Some(v) => vstd::utf8::encode_utf8("accept-encoding"@) + vstd::utf8::encode_utf8(v),
        None => Seq::empty(),
    }
}

fn append_bytes(out: &mut Vec<u8>, b: &[u8])
    ensures
        final(out)@ == old(out)@ + b@,
{
    let mut i: usize = 0;
    let ghost head = old(out)@;
    while i < b.len()
        invariant
            i <= b@.len(),
            out@ == head + b@.take(i as int),
        decreases b@.len() - i,
    {
        out.push(b[i]);
        assert(b@.take(i + 1) =~= b@.take(i as int).push(b@[i as int]));
        i = i + 1;
    }
    assert(b@.take(b@.len() as int) =~= b@);
}

/// The cache key of a request: the lowercase hexadecimal SHA-256 of its
/// method, path and query, and `accept` / `accept-encoding` headers.
pub fn build_cache_key(method: &str, path_and_query: &str, accept: Option<&str>, accept_encoding: Option<&str>) -> (r: String)
    ensures
        r@ == hex_bytes(sha256_digest(cache_key_input(method@, path_and_query@, crate::rate_limit::opt_view(accept), crate::rate_limit::opt_view(accept_encoding)))),
{
    let mut data: Vec<u8> = Vec::new();
    append_bytes(&mut data, method.as_bytes());
    append_bytes(&mut data, path_and_query.as_bytes());
    let ghost after_path = data@;
    match accept {
        Some(v) => {
            append_bytes(&mut data, "accept".as_bytes());
            append_bytes(&mut data, v.as_bytes());
        },
        None => {},
    }
    let ghost after_accept = data@;
    match accept_encoding {
        Some(v) => {
            append_bytes(&mut data, "accept-encoding".as_bytes());
            append_bytes(&mut data, v.as_bytes());
        },
        None => {},
    }
    assert(data@ =~= cache_key_input(method@, path_and_query@, crate::rate_limit::opt_view(accept), crate::rate_limit::opt_view(accept_encoding)));
    let digest = sha256(data.as_slice());
    hex_string(digest.as_slice())
}

/// The first `max-age=<seconds>` directive of a cache-control value whose
/// seconds parse.
pub open spec fn max_age_of(directives: Seq<Seq<char>>) -> Option<u64>
    decreases directives.len(),
{
    if directives.len() == 0 {
        None
    } else {
        let d = trim(directives[0]);
        if has_prefix(d, "max-age="@) && parse_u64_spec(d.skip(8)) is Some {
            parse_u64_spec(d.skip(8))
        } else {
            max_age_of(directives.drop_first())
        }
    }
}

/// Reads `max-age` from a cache-control value.
pub fn parse_max_age(cache_control: &str) -> (r: Option<u64>)
    ensures
        r == max_age_of(split_char(cache_control@, ',')),
{
    let cs = chars_of(cache_control);
    let parts = split_chars(cs.as_slice(), ',');
    let ghost pv = views(parts@);
    let prefix: Vec<char> = vec!['m', 'a', 'x', '-', 'a', 'g', 'e', '='];
    proof {
        reveal_strlit("max-age=");
    }
    assert(prefix@ =~= "max-age="@);
    let mut i: usize = 0;
    assert(pv.skip(0) =~= pv);
    while i < parts.len()
        invariant
            i <= parts@.len(),
            pv == views(parts@),
            pv == split_char(cache_control@, ','),
            prefix@ == "max-age="@,
            prefix@.len() == 8,
            max_age_of(pv) == max_age_of(pv.skip(i as int)),
        decreases parts@.len() - i,
    {
        let (a, b) = trim_bounds(parts[i].as_slice());
        let t = slice_range(parts[i].as_slice(), a, b);
        proof {
            assert(pv[i as int] == parts@[i as int]@);
            assert(pv.skip(i as int)[0] == pv[i as int]);
            assert(pv.skip(i as int).drop_first() =~= pv.skip(i + 1));
        }
        if starts_with(t.as_slice(), prefix.as_slice()) {
            let v = slice_range(t.as_slice(), 8, t.len());
            assert(v@ =~= t@.skip(8));
            match parse_u64(v.as_slice()) {
                Some(n) => {
                    return Some(n);
                },
                None => {},
            }
        }
        i = i + 1;
    }
    assert(pv.skip(parts@.len() as int) =~= Seq::<Seq<char>>::empty());
    None
}

/// A stored response.  Times are nanoseconds of a monotonic clock.
#[derive(Debug)]
pub struct CachedResponse {
    pub status: u16,
    pub headers: Vec<(String, String)>,
    pub body: Vec<u8>,
    pub cached_at: u64,
    pub expires_at: u64,
}

/// The value of the first header named `name`: `Some(None)` when it is not
/// text.
pub open spec fn first_header(hs: Seq<(Seq<char>, Option<Seq<char>>)>, name: Seq<char>) -> Option<Option<Seq<char>>>
    decreases hs.len(),
{
    if hs.len() == 0 {
        None
    } else if hs[0].0 == name {
        Some(hs[0].1)
    } else {
        first_header(hs.drop_first(), name)
    }
}

/// Headers whose values may not be text, by their views.
pub open spec fn raw_header_views(hs: Seq<(String, Option<String>)>) -> Seq<(Seq<char>, Option<Seq<char>>)> {
    hs.map_values(|h: (String, Option<String>)| (h.0@, match h.1 { Some(v) => Some(v@), None => None }))
}

/// The (lowercased) cache-control value of a response: empty when absent
/// or not text.
pub open spec fn cache_control_of(hs: Seq<(Seq<char>, Option<Seq<char>>)>) -> Seq<char> {
    match first_header(hs, "cache-control"@) {
        Some(Some(v)) => crate::text::ascii_lower_seq(v),
        _ => Seq::empty(),
    }
}

/// True when `needle` occurs in `s`.
pub open spec fn contains_seq(s: Seq<char>, needle: Seq<char>) -> bool {
    exists|i: int| 0 <= i && i + needle.len() <= s.len() && #[trigger] s.subrange(i, i + needle.len()) == needle
}

/// The headers stored with a cached response: text headers that are not
/// hop-by-hop, in order.
pub open spec fn stored_headers(hs: Seq<(Seq<char>, Option<Seq<char>>)>) -> Seq<(Seq<char>, Seq<char>)>
    decreases hs.len(),
{
    if hs.len() == 0 {
        Seq::empty()
    } else {
        stored_headers(hs.drop_last()) + match hs.last().1 {
            Some(v) => if hop_by_hop(hs.last().0) { Seq::empty() } else { seq![(hs.last().0, v)] },
            None => Seq::empty(),
        }
    }
}

/// True when a response may be stored: a cacheable method, a 2xx status,
/// and no `no-store` or `no-cache` directive.
pub open spec fn storable(method: Seq<char>, status: u16, hs: Seq<(Seq<char>, Option<Seq<char>>)>) -> bool {
    (method == "GET"@ || method == "HEAD"@) && 200 <= status <= 299 && !contains_seq(cache_control_of(hs), "no-store"@)
        && !contains_seq(cache_control_of(hs), "no-cache"@)
}

/// A response whose Cache-Control value holds `no-cache` or `no-store`, in
/// any letter case, is never stored.
pub proof fn uncacheable_directives_are_not_stored(
    method: Seq<char>,
    status: u16,
    hs: Seq<(Seq<char>, Option<Seq<char>>)>,
    v: Seq<char>,
    i: int,
)
    requires
        first_header(hs, "cache-control"@) == Some(Some(v)),
        0 <= i && i + 8 <= v.len(),
        crate::text::ascii_lower_seq(v).subrange(i, i + 8) == "no-cache"@
            || crate::text::ascii_lower_seq(v).subrange(i, i + 8) == "no-store"@,
    ensures
        !storable(method, status, hs),
{
    reveal_strlit("no-cache");
    reveal_strlit("no-store");
    let cc = cache_control_of(hs);
    assert(cc == crate::text::ascii_lower_seq(v));
    if cc.subrange(i, i + 8) == "no-cache"@ {
        assert(cc.subrange(i, i + "no-cache"@.len()) == "no-cache"@);
        assert(contains_seq(cc, "no-cache"@));
    } else {
        assert(cc.subrange(i, i + "no-store"@.len()) == "no-store"@);
        assert(contains_seq(cc, "no-store"@));
    }
}

/// Only successful (2xx) answers to GET and HEAD are stored.
pub proof fn only_successful_reads_are_stored(method: Seq<char>, status: u16, hs: Seq<(Seq<char>, Option<Seq<char>>)>)
    requires
        storable(method, status, hs),
    ensures
        method == "GET"@ || method == "HEAD"@,
        200 <= status < 300,
{
}

/// A successful GET or HEAD response without a Cache-Control header is
/// stored.
pub proof fn plain_success_is_stored(method: Seq<char>, status: u16, hs: Seq<(Seq<char>, Option<Seq<char>>)>)
    requires
        method == "GET"@ || method == "HEAD"@,
        200 <= status <= 299,
        first_header(hs, "cache-control"@) is None,
    ensures
        storable(method, status, hs),
{
    reveal_strlit("no-cache");
    reveal_strlit("no-store");
    assert(cache_control_of(hs).len() == 0);
}

/// The lifetime of a stored response in seconds: its `max-age`, else the
/// default.
pub open spec fn ttl_secs(hs: Seq<(Seq<char>, Option<Seq<char>>)>, default_ttl_secs: u64) -> u64 {
    match max_age_of(split_char(cache_control_of(hs), ',')) {
        Some(n) => n,
        None => default_ttl_secs,
    }
}

/// `a + b * 10^9`, saturating.
pub open spec fn expiry(now: u64, secs: u64) -> u64 {
    if now + secs * 1_000_000_000 > u64::MAX { u64::MAX } else { (now + secs * 1_000_000_000) as u64 }
}

/// Tests whether `needle` occurs in `s`.
pub fn contains_chars(s: &[char], needle: &[char]) -> (r: bool)
    ensures
        r == contains_seq(s@, needle@),
{
    let n = s.len();
    let m = needle.len();
    if m == 0 {
        assert(s@.subrange(0int, 0int + needle@.len()) =~= needle@);
        return true;
    }
    if m > n {
        assert(!contains_seq(s@, needle@));
        return false;
    }
    let mut i: usize = 0;
    while i <= n - m
        invariant
            m <= n,
            m >= 1,
            n == s@.len(),
            m == needle@.len(),
            i <= n - m + 1,
            forall|k: int| 0 <= k < i ==> #[trigger] s@.subrange(k, k + m) != needle@,
        decreases n - m + 1 - i,
    {
        let sub = slice_range(s, i, i + m);
        if crate::text::chars_eq(sub.as_slice(), needle) {
            return true;
        }
        i = i + 1;
    }
    false
}

fn header_value_of(hs: &Vec<(String, Option<String>)>, name: &str) -> (r: Option<Option<String>>)
    ensures
        match first_header(raw_header_views(hs@), name@) {
            None => r is None,
            Some(None) => r matches Some(None),
            Some(Some(v)) => r matches Some(Some(x)) && x@ == v,
        },
{
    let ghost hv = raw_header_views(hs@);
    let mut i: usize = 0;
    assert(hv.skip(0) =~= hv);
    while i < hs.len()
        invariant
            i <= hs@.len(),
            hv == raw_header_views(hs@),
            first_header(hv, name@) == first_header(hv.skip(i as int), name@),
        decreases hs@.len() - i,
    {
        proof {
            assert(hv.skip(i as int)[0] == hv[i as int]);
            assert(hv.skip(i as int).drop_first() =~= hv.skip(i + 1));
        }
        if str_eq(hs[i].0.as_str(), name) {
            return match &hs[i].1 {
                Some(v) => Some(Some(v.clone())),
                None => Some(None),
            };
        }
        i = i + 1;
    }
    assert(hv.skip(hs@.len() as int) =~= Seq::<(Seq<char>, Option<Seq<char>>)>::empty());
    None
}

/// Decides whether an upstream response is stored, and stores it with its
/// lifetime from `now`.  Header values that are not text are `None`.
pub fn maybe_cache_response(
    method: &str,
    status: u16,
    headers: &Vec<(String, Option<String>)>,
    body: &[u8],
    default_ttl_secs: u64,
    now: u64,
) -> (r: Option<CachedResponse>)
    ensures
        !storable(method@, status, raw_header_views(headers@)) ==> r is None,
        storable(method@, status, raw_header_views(headers@)) ==> (r matches Some(c) && c.status == status
            && crate::http::pair_views(c.headers@) == stored_headers(raw_header_views(headers@)) && c.body@ == body@
            && c.cached_at == now && c.expires_at == expiry(now, ttl_secs(raw_header_views(headers@), default_ttl_secs))),
{
    let ghost hv = raw_header_views(headers@);
    if !is_cacheable_method(method) || !(200 <= status && status <= 299) {
        return None;
    }
    let cc: String = match header_value_of(headers, "cache-control") {
        Some(Some(v)) => to_ascii_lowercase(v.as_str()),
        _ => String::new(),
    };
    assert(cc@ == cache_control_of(hv));
    let ccs = chars_of(cc.as_str());
    let no_store: Vec<char> = vec!['n', 'o', '-', 's', 't', 'o', 'r', 'e'];
    let no_cache: Vec<char> = vec!['n', 'o', '-', 'c', 'a', 'c', 'h', 'e'];
    proof {
        reveal_strlit("no-store");
        reveal_strlit("no-cache");
    }
    assert(no_store@ =~= "no-store"@);
    assert(no_cache@ =~= "no-cache"@);
    if contains_chars(ccs.as_slice(), no_store.as_slice()) || contains_chars(ccs.as_slice(), no_cache.as_slice()) {
        return None;
    }
    let ttl = match parse_max_age(cc.as_str()) {
        Some(n) => n,
        None => default_ttl_secs,
    };
    let expires_at = match ttl.checked_mul(1_000_000_000) {
        Some(x) => now.saturating_add(x),
        None => u64::MAX,
    };
    let mut stored: Vec<(String, String)> = Vec::new();
    let mut i: usize = 0;
    assert(hv.take(0) =~= Seq::<(Seq<char>, Option<Seq<char>>)>::empty());
    while i < headers.len()
        invariant
            i <= headers@.len(),
            hv == raw_header_views(headers@),
            crate::http::pair_views(stored@) == stored_headers(hv.take(i as int)),
        decreases headers@.len() - i,
    {
        proof {
            assert(hv.take(i + 1).drop_last() =~= hv.take(i as int));
        }
        match &headers[i].1 {
            Some(v) => {
                if !is_hop_by_hop(headers[i].0.as_str()) {
                    let ghost before = crate::http::pair_views(stored@);
                    stored.push((headers[i].0.clone(), v.clone()));
                    assert(crate::http::pair_views(stored@) =~= before.push((headers@[i as int].0@, v@)));
                }
            },
            None => {},
        }
        i = i + 1;
    }
    assert(hv.take(headers@.len() as int) =~= hv);
    Some(CachedResponse {
        status,
        headers: stored,
        body: crate::text::slice_range(body, 0, body.len()),
        cached_at: now,
        expires_at,
    })
}

/// True while a stored response may be served at `now`.
pub fn is_fresh(cached: &CachedResponse, now: u64) -> (r: bool)
    ensures
        r == (cached.expires_at > now),
{
    cached.expires_at > now
}

/// The `age` of a stored response at `now`, in whole seconds.
pub fn cache_age_secs(cached: &CachedResponse, now: u64) -> (r: u64)
    ensures
        r == (if now >= cached.cached_at { (now - cached.cached_at) as u64 } else { 0 }) / 1_000_000_000,
{
    (if now >= cached.cached_at { now - cached.cached_at } else { 0 }) / 1_000_000_000
}

/// The response headers an upstream response is answered with: all but the
/// hop-by-hop ones and `content-length`.
pub open spec fn relayed_header(name: Seq<char>) -> bool {
    !hop_by_hop(crate::text::ascii_lower_seq(name)) && name != "content-length"@
}

/// Tests whether an upstream response header is passed to the client.
pub fn is_relayed_header(name: &str) -> (r: bool)
    ensures
        r == relayed_header(name@),
{
    let lower = to_ascii_lowercase(name);
    !is_hop_by_hop(lower.as_str()) && !str_eq(name, "content-length")
}

/// The cache's counters.
#[derive(Debug, Default)]
pub struct CacheCounters {
    pub hits: u64,
    pub misses: u64,
    pub invalidations: u64,
}

/// What a lookup of a cacheable request found.
#[derive(Debug, Clone, Copy, PartialEq, Eq, Structural)]
pub enum CacheLookup {
    /// A fresh response: serve it.
    Hit,
    /// A response past its expiry: drop it and fetch.
    Expired,
    /// Nothing stored: fetch.
    Absent,
}

/// What a lookup finds at `now` in the entry stored under its key.
pub open spec fn lookup_outcome(found: Option<CachedResponse>, now: u64) -> CacheLookup {
    match found {
        Some(c) => if c.expires_at > now { CacheLookup::Hit } else { CacheLookup::Expired },
        None => CacheLookup::Absent,
    }
}

impl CacheCounters {
    /// Counters at zero.
    pub fn new() -> (r: CacheCounters)
        ensures
            r.hits == 0 && r.misses == 0 && r.invalidations == 0,
    {
        CacheCounters { hits: 0, misses: 0, invalidations: 0 }
    }

    /// Classifies a lookup of a cacheable request, given the entry stored
    /// under its key, and counts it: a fresh entry is a hit, anything else a
    /// miss (the counters wrap, as atomic counters do).
    pub fn record_lookup(&mut self, found: Option<&CachedResponse>, now: u64) -> (r: CacheLookup)
        ensures
            r == lookup_outcome(match found { Some(c) => Some(*c), None => None }, now),
            final(self).hits == if r == CacheLookup::Hit { old(self).hits.wrapping_add(1) } else { old(self).hits },
            final(self).misses == if r == CacheLookup::Hit { old(self).misses } else { old(self).misses.wrapping_add(1) },
            final(self).invalidations == old(self).invalidations,
    {
        let r = match found {
            Some(c) => if is_fresh(c, now) { CacheLookup::Hit } else { CacheLookup::Expired },
            None => CacheLookup::Absent,
        };
        if r == CacheLookup::Hit {
            self.hits = self.hits.wrapping_add(1);
        } else {
            self.misses = self.misses.wrapping_add(1);
        }
        r
    }

    /// Counts the keys an invalidation removed.
    pub fn record_invalidations(&mut self, count: usize)
        ensures
            final(self).invalidations == old(self).invalidations.wrapping_add(count as u64),
            final(self).hits == old(self).hits && final(self).misses == old(self).misses,
    {
        if count > 0 {
            self.invalidations = self.invalidations.wrapping_add(count as u64);
        }
    }
}

/// The answer of the cache invalidation endpoint.
#[derive(Debug, Clone, PartialEq, Eq)]
pub struct CacheInvalidationResponse {
    pub invalidated_keys: usize,
    pub path: String,
}

/// The cache keys stored for each request path.
pub struct PathIndex {
    entries: Vec<(String, Vec<String>)>,
}

/// The keys stored for `path`, if any.
pub open spec fn keys_for(e: Seq<(Seq<char>, Seq<Seq<char>>)>, path: Seq<char>) -> Option<Seq<Seq<char>>>
    decreases e.len(),
{
    if e.len() == 0 {
        None
    } else if e[0].0 == path {
        Some(e[0].1)
    } else {
        keys_for(e.drop_first(), path)
    }
}

/// The entries of a path index as plain values.
pub open spec fn index_views(e: Seq<(String, Vec<String>)>) -> Seq<(Seq<char>, Seq<Seq<char>>)> {
    e.map_values(|x: (String, Vec<String>)| (x.0@, x.1@.map_values(|k: String| k@)))
}

proof fn lemma_keys_for_absent(e: Seq<(Seq<char>, Seq<Seq<char>>)>, path: Seq<char>)
    requires
        forall|i: int| 0 <= i < e.len() ==> (#[trigger] e[i]).0 != path,
    ensures
        keys_for(e, path) is None,
    decreases e.len(),
{
    if e.len() > 0 {
        lemma_keys_for_absent(e.drop_first(), path);
    }
}

proof fn lemma_keys_for_at(e: Seq<(Seq<char>, Seq<Seq<char>>)>, path: Seq<char>, i: int)
    requires
        0 <= i < e.len(),
        e[i].0 == path,
        forall|k: int| 0 <= k < i ==> (#[trigger] e[k]).0 != path,
    ensures
        keys_for(e, path) == Some(e[i].1),
    decreases e.len(),
{
    if i > 0 {
        lemma_keys_for_at(e.drop_first(), path, i - 1);
    }
}

proof fn lemma_keys_for_update(e: Seq<(Seq<char>, Seq<Seq<char>>)>, i: int, v: (Seq<char>, Seq<Seq<char>>), p: Seq<char>)
    requires
        0 <= i < e.len(),
        v.0 == e[i].0,
        p != e[i].0,
    ensures
        keys_for(e.update(i, v), p) == keys_for(e, p),
    decreases e.len(),
{
    if i == 0 {
        assert(e.update(i, v).drop_first() =~= e.drop_first());
    } else {
        assert(e.update(i, v)[0] == e[0]);
        if e[0].0 != p {
            lemma_keys_for_update(e.drop_first(), i - 1, v, p);
            assert(e.update(i, v).drop_first() =~= e.drop_first().update(i - 1, v));
        }
    }
}

proof fn lemma_keys_for_push(e: Seq<(Seq<char>, Seq<Seq<char>>)>, v: (Seq<char>, Seq<Seq<char>>), p: Seq<char>)
    ensures
        keys_for(e.push(v), p) == match keys_for(e, p) {
            Some(k) => Some(k),
            None => if v.0 == p { Some(v.1) } else { None },
        },
    decreases e.len(),
{
    if e.len() > 0 {
        assert(e.push(v)[0] == e[0]);
        lemma_keys_for_push(e.drop_first(), v, p);
        assert(e.push(v).drop_first() =~= e.drop_first().push(v));
    } else {
        assert(e.push(v).drop_first() =~= Seq::<(Seq<char>, Seq<Seq<char>>)>::empty());
        assert(e.push(v)[0] == v);
        assert(keys_for(Seq::<(Seq<char>, Seq<Seq<char>>)>::empty(), p) is None);
    }
}

proof fn lemma_keys_for_remove(e: Seq<(Seq<char>, Seq<Seq<char>>)>, i: int, p: Seq<char>)
    requires
        0 <= i < e.len(),
        p != e[i].0,
        forall|k: int| 0 <= k < e.len() && k != i ==> (#[trigger] e[k]).0 != e[i].0,
    ensures
        keys_for(e.remove(i), p) == keys_for(e, p),
    decreases e.len(),
{
    if i == 0 {
        assert(e.remove(0) =~= e.drop_first());
    } else if e[0].0 != p {
        assert(e.remove(i).drop_first() =~= e.drop_first().remove(i - 1));
        lemma_keys_for_remove(e.drop_first(), i - 1, p);
    } else {
        assert(e.remove(i)[0] == e[0]);
    }
}

impl PathIndex {
    /// The keys stored for `path`.
    pub closed spec fn keys(&self, path: Seq<char>) -> Option<Seq<Seq<char>>> {
        keys_for(index_views(self.entries@), path)
    }

    /// The internal consistency of the index: one entry per path.
    pub closed spec fn wf(&self) -> bool {
        let e = index_views(self.entries@);
        forall|i: int, j: int| 0 <= i < j < e.len() ==> (#[trigger] e[i]).0 != (#[trigger] e[j]).0
    }

    /// An empty index.
    pub fn new() -> (r: PathIndex)
        ensures
            r.wf(),
            forall|p: Seq<char>| r.keys(p) is None,
    {
        PathIndex { entries: Vec::new() }
    }

    fn find(&self, path: &str) -> (r: Option<usize>)
        requires
            self.wf(),
        ensures
            r matches Some(i) ==> i < self.entries@.len() && index_views(self.entries@)[i as int].0 == path@
                && self.keys(path@) == Some(index_views(self.entries@)[i as int].1),
            r is None ==> self.keys(path@) is None && forall|k: int| 0 <= k < self.entries@.len() ==> (#[trigger] index_views(self.entries@)[k]).0 != path@,
    {
        let ghost e = index_views(self.entries@);
        let mut i: usize = 0;
        while i < self.entries.len()
            invariant
                i <= e.len(),
                e == index_views(self.entries@),
                forall|k: int| 0 <= k < i ==> (#[trigger] e[k]).0 != path@,
            decreases e.len() - i,
        {
            assert(e[i as int].0 == self.entries@[i as int].0@);
            if str_eq(self.entries[i].0.as_str(), path) {
                proof {
                    lemma_keys_for_at(e, path@, i as int);
                }
                return Some(i);
            }
            i = i + 1;
        }
        proof {
            lemma_keys_for_absent(e, path@);
        }
        None
    }

    /// Records that `key` was stored for `path`.
    pub fn index_cache_key(&mut self, path: &str, key: String)
        requires
            old(self).wf(),
        ensures
            final(self).wf(),
            final(self).keys(path@) == Some(match old(self).keys(path@) {
                Some(k) => k,
                None => Seq::empty(),
            }.push(key@)),
            forall|p: Seq<char>| p != path@ ==> final(self).keys(p) == old(self).keys(p),
    {
        let ghost e = index_views(self.entries@);
        match self.find(path) {
            Some(i) => {
                let (p, mut ks) = self.entries.remove(i);
                let ghost kv = ks@.map_values(|k: String| k@);
                ks.push(key);
                let ghost nv = (p@, ks@.map_values(|k: String| k@));
                assert(ks@.map_values(|k: String| k@) =~= kv.push(key@));
                self.entries.insert(i, (p, ks));
                proof {
                    assert(index_views(self.entries@) =~= e.update(i as int, nv));
                    let e2 = index_views(self.entries@);
                    assert forall|x: int, y: int| 0 <= x < y < e2.len() implies (#[trigger] e2[x]).0 != (#[trigger] e2[y]).0 by {
                        assert(e2[x].0 == e[x].0 && e2[y].0 == e[y].0);
                    }
                    assert forall|k: int| 0 <= k < i implies (#[trigger] e2[k]).0 != path@ by {
                        assert(e[k].0 != e[i as int].0);
                    }
                    lemma_keys_for_at(e2, path@, i as int);
                    assert forall|q: Seq<char>| q != path@ implies keys_for(e2, q) == keys_for(e, q) by {
                        lemma_keys_for_update(e, i as int, nv, q);
                    }
                }
            },
            None => {
                let mut ks: Vec<String> = Vec::new();
                let ghost p0 = path@;
                ks.push(key);
                let ghost nv = (path@, ks@.map_values(|k: String| k@));
                assert(ks@.map_values(|k: String| k@) =~= Seq::<Seq<char>>::empty().push(key@));
                self.entries.push((path.to_string(), ks));
                proof {
                    assert(index_views(self.entries@) =~= e.push(nv));
                    let e2 = index_views(self.entries@);
                    assert forall|x: int, y: int| 0 <= x < y < e2.len() implies (#[trigger] e2[x]).0 != (#[trigger] e2[y]).0 by {
                        assert(e2[x] == e[x]);
                    }
                    assert forall|q: Seq<char>| true implies keys_for(e2, q) == match keys_for(e, q) {
                        Some(k) => Some(k),
                        None => if nv.0 == q { Some(nv.1) } else { None },
                    } by {
                        lemma_keys_for_push(e, nv, q);
                    }
                }
            },
        }
    }

    /// Removes and gives the keys stored for `path` (none if it has none).
    pub fn invalidate_path(&mut self, path: &str) -> (r: Vec<String>)
        requires
            old(self).wf(),
        ensures
            final(self).wf(),
            r@.map_values(|k: String| k@) == match old(self).keys(path@) {
                Some(k) => k,
                None => Seq::empty(),
            },
            final(self).keys(path@) is None,
            forall|p: Seq<char>| p != path@ ==> final(self).keys(p) == old(self).keys(p),
    {
        let ghost e = index_views(self.entries@);
        match self.find(path) {
            Some(i) => {
                let (_, ks) = self.entries.remove(i);
                proof {
                    let e2 = index_views(self.entries@);
                    assert(e2 =~= e.remove(i as int));
                    assert forall|x: int, y: int| 0 <= x < y < e2.len() implies (#[trigger] e2[x]).0 != (#[trigger] e2[y]).0 by {
                        let ox = if x < i { x } else { x + 1 };
                        let oy = if y < i { y } else { y + 1 };
                        assert(e2[x] == e[ox] && e2[y] == e[oy]);
                    }
                    assert forall|k: int| 0 <= k < e2.len() implies (#[trigger] e2[k]).0 != path@ by {
                        let ok = if k < i { k } else { k + 1 };
                        assert(e2[k] == e[ok]);
                        assert(e[ok].0 != e[i as int].0);
                    }
                    lemma_keys_for_absent(e2, path@);
                    assert forall|q: Seq<char>| q != path@ implies keys_for(e2, q) == keys_for(e, q) by {
                        assert forall|k: int| 0 <= k < e.len() && k != i implies (#[trigger] e[k]).0 != e[i as int].0 by {
                            if k < i { assert(e[k].0 != e[i as int].0); } else { assert(e[i as int].0 != e[k].0); }
                        }
                        lemma_keys_for_remove(e, i as int, q);
                    }
                }
                ks
            },
            None => {
                let r: Vec<String> = Vec::new();
                assert(r@.map_values(|k: String| k@) =~= Seq::<Seq<char>>::empty());
                r
            },
        }
    }
}

} // verus!
