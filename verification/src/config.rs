//! The server's settings and the addresses it listens on.

use vstd::prelude::*;
use crate::text::concat;

verus! {

/// The server's settings.
#[derive(Debug, Clone)]
pub struct AppConfig {
    pub host: String,
    pub http_port: String,
    pub https_port: String,
    pub cert_path: String,
    pub key_path: String,
    pub max_conns: usize,
}

impl AppConfig {
    /// `host:http_port`.
    pub fn http_addr(&self) -> (r: String)
        ensures
            r@ == self.host@ + ":"@ + self.http_port@,
    {
        let a = concat(self.host.as_str(), ":");
        concat(a.as_str(), self.http_port.as_str())
    }

    /// `host:https_port`.
    pub fn https_addr(&self) -> (r: String)
        ensures
            r@ == self.host@ + ":"@ + self.https_port@,
    {
        let a = concat(self.host.as_str(), ":");
        concat(a.as_str(), self.https_port.as_str())
    }
}

/// A setting's value: the one given, else the default.
pub fn setting_or(value: Option<String>, default: &str) -> (r: String)
    ensures
        r@ == match value { Some(v) => v@, None => default@ },
{
    match value {
        Some(v) => v,
        None => default.to_string(),
    }
}

/// The connection limit a setting gives: its number, else 1000.
pub fn max_conns_setting(value: Option<String>) -> (r: usize)
    ensures
        r == match value {
            Some(v) => match crate::text::parse_usize_spec(v@) { Some(n) => n, None => 1000 },
            None => match crate::text::parse_usize_spec("1000"@) { Some(n) => n, None => 1000 },
        },
{
    let text = setting_or(value, "1000");
    let cs = crate::text::chars_of(text.as_str());
    match crate::text::parse_usize(cs.as_slice()) {
        Some(n) => n,
        None => 1000,
    }
}

} // verus!
