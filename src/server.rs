//! The decisions of the proxy server: which upstream server a query goes
//! to, what is sent to it, and when a change of the compiled tables leads to
//! a reload.

use crate::context::Context;
use vstd::prelude::*;
use vstd::string::*;

verus! {

/// The upstream server for queries that resolve to no server.
pub const DEFAULT_SERVER: &'static str = "whois.iana.org";

/// The port the proxy listens on unless told otherwise.
pub const DEFAULT_PORT: &'static str = "4343";

/// How long after a change of the compiled tables they are reloaded, in
/// milliseconds; changes within that time lead to no further reload.
pub const RELOAD_DELAY_MS: u64 = 15000;

/// How often the compiled tables are polled for changes, in seconds.
pub const POLL_PERIOD_SECS: u64 = 5;

/// Whole milliseconds of a duration given as seconds and nanoseconds.
pub fn duration_to_ms(secs: u64, subsec_nanos: u32) -> (r: u64)
    requires
        secs * 1000 + subsec_nanos / 1_000_000 <= u64::MAX,
    ensures
        r == secs * 1000 + subsec_nanos / 1_000_000,
{
    let ms_secs: u64 = secs * 1000;
    let ns_secs: u64 = (subsec_nanos / 1_000_000) as u64;
    ms_secs + ns_secs
}

/// The listening settings: the default upstream server and the port, each
/// as given or else its default.
pub fn settings(default_server: Option<String>, port: Option<String>) -> (r: (String, String))
    ensures
        r.0@ == (match default_server {
            Some(s) => s@,
            None => DEFAULT_SERVER@,
        }),
        r.1@ == (match port {
            Some(p) => p@,
            None => DEFAULT_PORT@,
        }),
{
    let server = match default_server {
        Some(s) => s,
        None => DEFAULT_SERVER.to_owned(),
    };
    let port = match port {
        Some(p) => p,
        None => DEFAULT_PORT.to_owned(),
    };
    (server, port)
}

/// A line as read from a client, without its line end (`\n` and a `\r`
/// before it).
pub open spec fn query_text(raw: Seq<char>) -> Seq<char> {
    let line = if raw.len() > 0 && raw.last() == '\n' {
        raw.drop_last()
    } else {
        raw
    };
    if line.len() > 0 && line.last() == '\r' {
        line.drop_last()
    } else {
        line
    }
}

/// Takes the line end off a line read from a client.
pub fn query_line(raw: &str) -> (r: &str)
    ensures
        r@ == query_text(raw@),
{
    let n = raw.unicode_len();
    let mut end = n;
    if end > 0 && raw.get_char(end - 1) == '\n' {
        end = end - 1;
    }
    if end > 0 && raw.get_char(end - 1) == '\r' {
        end = end - 1;
    }
    let r = raw.substring_char(0, end);
    proof {
        let line = if raw@.len() > 0 && raw@.last() == '\n' {
            raw@.drop_last()
        } else {
            raw@
        };
        assert(line =~= raw@.subrange(0, line.len() as int));
        if line.len() > 0 && line.last() == '\r' {
            assert(line.drop_last() =~= raw@.subrange(0, line.len() - 1));
        }
    }
    r
}

/// The upstream server for a query: the one the context resolves it to,
/// else the default.
pub fn upstream_server(ctx: &Context, query: &str, default_server: &str) -> (r: String)
    ensures
        r@ == (match ctx.server_for(query@) {
            Some(name) => name,
            None => default_server@,
        }),
{
    match ctx.lookup(query) {
        Some(name) => name.clone(),
        None => default_server.to_owned(),
    }
}

/// The address to dial for a server: its name and the WHOIS port.
pub fn upstream_address(server: &str) -> (r: String)
    ensures
        r@ == server@ + seq![':', '4', '3'],
{
    let mut r = server.to_owned();
    r.append(":43");
    proof {
        reveal_strlit(":43");
    }
    r
}

/// What is sent upstream for a query: the query and CR LF.
pub fn upstream_request(query: &str) -> (r: String)
    ensures
        r@ == query@ + seq!['\r', '\n'],
{
    let mut r = query.to_owned();
    r.append("\r\n");
    proof {
        reveal_strlit("\r\n");
    }
    r
}

/// The debounce of reloads: a change of the compiled tables leads to a
/// reload unless one was started less than the reload delay before.
pub struct ReloadWatch {
    /// When the last reload was started, or the watch began, in
    /// milliseconds.
    pub last_event_ms: u64,
}

impl ReloadWatch {
    /// A watch that began at `now_ms`.
    pub fn new(now_ms: u64) -> (r: ReloadWatch)
        ensures
            r.last_event_ms == now_ms,
    {
        ReloadWatch { last_event_ms: now_ms }
    }

    /// A change was seen at `now_ms`: whether to start a reload.
    pub fn on_write(&mut self, now_ms: u64) -> (reload: bool)
        ensures
            reload == (now_ms >= old(self).last_event_ms + RELOAD_DELAY_MS),
            final(self).last_event_ms == (if reload {
                now_ms
            } else {
                old(self).last_event_ms
            }),
    {
        if now_ms >= self.last_event_ms && now_ms - self.last_event_ms >= RELOAD_DELAY_MS {
            self.last_event_ms = now_ms;
            true
        } else {
            false
        }
    }
}

} // verus!
