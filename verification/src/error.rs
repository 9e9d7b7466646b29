//! The proxy's error type, the status each error is answered with, and the
//! message that goes with it.
use vstd::prelude::*;
use vstd::string::*;

use crate::text::{decimal, decimal_string};

verus! {

#[derive(Debug, PartialEq, Eq)]
pub enum ProxyError {
    NoBackends,
    BackendUnhealthy(String),
    Timeout(u64),
    Upstream(String),
    RateLimited,
    Config(String),
    Connection(String),
    PayloadTooLarge,
    Internal(String),
}

/// The HTTP status that answers an error.
pub open spec fn status_of(e: ProxyError) -> u16 {
    match e {
        ProxyError::NoBackends => 502,
        ProxyError::BackendUnhealthy(_) => 502,
        ProxyError::Timeout(_) => 504,
        ProxyError::Upstream(_) => 502,
        ProxyError::RateLimited => 429,
        ProxyError::Config(_) => 500,
        ProxyError::Connection(_) => 502,
        ProxyError::PayloadTooLarge => 413,
        ProxyError::Internal(_) => 500,
    }
}

/// The human-readable text of an error.
pub open spec fn message_of(e: ProxyError) -> Seq<char> {
    match e {
        ProxyError::NoBackends => "no available backends"@,
        ProxyError::BackendUnhealthy(name) => "backend "@ + name@ + " is unhealthy"@,
        ProxyError::Timeout(secs) => "request timeout after "@ + decimal(secs as nat) + "s"@,
        ProxyError::Upstream(m) => "upstream error: "@ + m@,
        ProxyError::RateLimited => "rate limit exceeded"@,
        ProxyError::Config(m) => "invalid configuration: "@ + m@,
        ProxyError::Connection(m) => "connection error: "@ + m@,
        ProxyError::PayloadTooLarge => "request too large"@,
        ProxyError::Internal(m) => "internal error: "@ + m@,
    }
}

/// What a failed transport call is turned into: a timeout becomes
/// `Timeout(30)`, a failed connection `Connection`, anything else
/// `Upstream`, both with the failure's text.
pub open spec fn transport_error_of(is_timeout: bool, is_connect: bool, text: Seq<char>) -> (u8, u64, Seq<char>) {
    if is_timeout {
        (0, 30, Seq::empty())
    } else if is_connect {
        (1, 0, text)
    } else {
        (2, 0, text)
    }
}

/// Which of the three transport outcomes an error is, with its payload.
pub open spec fn transport_view(e: ProxyError) -> (u8, u64, Seq<char>) {
    match e {
        ProxyError::Timeout(s) => (0, s, Seq::empty()),
        ProxyError::Connection(m) => (1, 0, m@),
        ProxyError::Upstream(m) => (2, 0, m@),
        _ => (3, 0, Seq::empty()),
    }
}

fn text_then(prefix: &str, rest: &str) -> (r: String)
    ensures
        r@ == prefix@ + rest@,
{
    let mut s = prefix.to_owned();
    s.append(rest);
    s
}

impl ProxyError {
    /// The HTTP status code the error is answered with.
    pub fn status_code(&self) -> (r: u16)
        ensures
            r == status_of(*self),
    {
        match self {
            ProxyError::NoBackends => 502,
            ProxyError::BackendUnhealthy(_) => 502,
            ProxyError::Timeout(_) => 504,
            ProxyError::Upstream(_) => 502,
            ProxyError::RateLimited => 429,
            ProxyError::Config(_) => 500,
            ProxyError::Connection(_) => 502,
            ProxyError::PayloadTooLarge => 413,
            ProxyError::Internal(_) => 500,
        }
    }

    /// The error's text, as its `Display` renders it.
    pub fn message(&self) -> (r: String)
        ensures
            r@ == message_of(*self),
    {
        match self {
            ProxyError::NoBackends => "no available backends".to_owned(),
            ProxyError::BackendUnhealthy(name) => {
                let mut s = text_then("backend ", name.as_str());
                s.append(" is unhealthy");
                s
            },
            ProxyError::Timeout(secs) => {
                let digits = decimal_string(*secs);
                let mut s = text_then("request timeout after ", digits.as_str());
                s.append("s");
                s
            },
            ProxyError::Upstream(m) => text_then("upstream error: ", m.as_str()),
            ProxyError::RateLimited => "rate limit exceeded".to_owned(),
            ProxyError::Config(m) => text_then("invalid configuration: ", m.as_str()),
            ProxyError::Connection(m) => text_then("connection error: ", m.as_str()),
            ProxyError::PayloadTooLarge => "request too large".to_owned(),
            ProxyError::Internal(m) => text_then("internal error: ", m.as_str()),
        }
    }

    /// The error a failed HTTP client call becomes, from what the client
    /// reports of it: whether it timed out, whether the connection failed,
    /// and its text.
    pub fn from_transport(is_timeout: bool, is_connect: bool, text: String) -> (r: ProxyError)
        ensures
            transport_view(r) == transport_error_of(is_timeout, is_connect, text@),
    {
        if is_timeout {
            ProxyError::Timeout(30)
        } else if is_connect {
            ProxyError::Connection(text)
        } else {
            ProxyError::Upstream(text)
        }
    }

    /// The error an unparsable URI becomes.
    pub fn from_invalid_uri(text: String) -> (r: ProxyError)
        ensures
            r == ProxyError::Config(text),
    {
        ProxyError::Config(text)
    }
}

} // verus!
