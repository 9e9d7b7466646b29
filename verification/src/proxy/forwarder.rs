//! The decisions of request forwarding: which headers go through, how the
//! upstream status and failures are reported.
use vstd::prelude::*;

use crate::error::{transport_error_of, transport_view, ProxyError};
use crate::text::{eq_ignore_ascii_case, equal_ignoring_ascii_case, same_text};

verus! {

/// A request asks for a WebSocket upgrade: its `Upgrade` header reads
/// `websocket`, in any case.
pub open spec fn wants_websocket(upgrade: Option<Seq<char>>) -> bool {
    match upgrade {
        Some(u) => equal_ignoring_ascii_case(u, "websocket"@),
        None => false,
    }
}

pub fn is_websocket_upgrade(upgrade: Option<&str>) -> (r: bool)
    ensures
        r == wants_websocket(match upgrade { Some(u) => Some(u@), None => None }),
{
    match upgrade {
        Some(u) => eq_ignore_ascii_case(u, "websocket"),
        None => false,
    }
}

/// Request headers that are sent on: all but `host` and `transfer-encoding`,
/// and, outside a WebSocket upgrade, `connection`.
pub open spec fn request_header_forwarded(name: Seq<char>, websocket: bool) -> bool {
    name != "host"@ && name != "transfer-encoding"@ && (websocket || name != "connection"@)
}

pub fn forward_request_header(name: &str, websocket: bool) -> (r: bool)
    ensures
        r == request_header_forwarded(name@, websocket),
        name@ == "host"@ ==> !r,
        name@ == "transfer-encoding"@ ==> !r,
        name@ == "connection"@ ==> r == websocket,
{
    proof {
        lemma_distinct_names();
    }
    !same_text(name, "host") && !same_text(name, "transfer-encoding") && (websocket || !same_text(
        name,
        "connection",
    ))
}

/// Response headers that are passed back: all for a WebSocket upgrade,
/// otherwise all but `transfer-encoding` and `connection`.
pub open spec fn response_header_kept(name: Seq<char>, websocket: bool) -> bool {
    websocket || (name != "transfer-encoding"@ && name != "connection"@)
}

pub fn keep_response_header(name: &str, websocket: bool) -> (r: bool)
    ensures
        r == response_header_kept(name@, websocket),
        websocket ==> r,
        (name@ == "transfer-encoding"@ || name@ == "connection"@) ==> r == websocket,
{
    proof {
        lemma_distinct_names();
    }
    websocket || (!same_text(name, "transfer-encoding") && !same_text(name, "connection"))
}

/// Law of the forwarding rules: `host` and `transfer-encoding` never go to
/// the backend, `connection` goes only on a WebSocket upgrade, every other
/// request header goes, whatever the kind of request; every response header
/// comes back from a WebSocket upgrade, and from a plain request all but
/// `transfer-encoding` and `connection`.
pub proof fn lemma_forwarding_rules(name: Seq<char>, websocket: bool)
    ensures
        !request_header_forwarded("host"@, websocket),
        !request_header_forwarded("transfer-encoding"@, websocket),
        request_header_forwarded("connection"@, websocket) == websocket,
        name != "host"@ && name != "transfer-encoding"@ && name != "connection"@ ==> request_header_forwarded(
            name,
            websocket,
        ),
        response_header_kept(name, true),
        !response_header_kept("transfer-encoding"@, false),
        !response_header_kept("connection"@, false),
        name != "transfer-encoding"@ && name != "connection"@ ==> response_header_kept(name, false),
{
    lemma_distinct_names();
}

/// The three names the rules single out are different names.
proof fn lemma_distinct_names()
    ensures
        "connection"@ != "host"@,
        "connection"@ != "transfer-encoding"@,
        "host"@ != "transfer-encoding"@,
{
    reveal_strlit("host");
    reveal_strlit("transfer-encoding");
    reveal_strlit("connection");
    assert("host"@.len() == 4);
    assert("connection"@.len() == 10);
    assert("transfer-encoding"@.len() == 17);
}

/// Whether a request body is attached: only a non-empty one.
pub fn send_body(len: usize) -> (r: bool)
    ensures
        r == (len > 0),
{
    len > 0
}

/// The status passed back for an upstream status code: the code itself
/// when it is a valid status (100 to 999), 502 otherwise.
pub fn upstream_status(code: u16) -> (r: u16)
    ensures
        r == (if 100 <= code <= 999 { code } else { 502 }),
{
    if 100 <= code && code <= 999 {
        code
    } else {
        502
    }
}

/// The error a failed upstream call becomes: a timeout reports the timeout
/// that was applied, a failed connection becomes `Connection`, anything
/// else `Upstream`, the same for a plain request and a WebSocket upgrade.
pub fn send_error(is_timeout: bool, is_connect: bool, text: String, timeout_secs: u64) -> (r: ProxyError)
    ensures
        transport_view(r) == (if is_timeout {
            (0u8, timeout_secs, Seq::<char>::empty())
        } else {
            transport_error_of(is_timeout, is_connect, text@)
        }),
{
    if is_timeout {
        ProxyError::Timeout(timeout_secs)
    } else if is_connect {
        ProxyError::Connection(text)
    } else {
        ProxyError::Upstream(text)
    }
}

} // verus!
