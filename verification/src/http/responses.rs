//! Responses as they go over the wire.
use vstd::prelude::*;
use vstd::string::*;
use vstd::utf8::encode_utf8;
use crate::text::{copy_text, decimal, push_decimal};

verus! {

/// How long a client may keep a response.
#[derive(Debug, Clone, Copy, PartialEq, Eq, Structural)]
pub enum CachePolicy {
    /// Nothing is said.
    Unsaid,
    /// Not without asking again.
    NoCache,
    /// For an hour.
    OneHour,
}

/// The header line for a cache policy.
pub open spec fn cache_line(cache: CachePolicy) -> Seq<char> {
    match cache {
        CachePolicy::Unsaid => Seq::empty(),
        CachePolicy::NoCache => "Cache-Control: no-cache\r\n"@,
        CachePolicy::OneHour => "Cache-Control: max-age=3600\r\n"@,
    }
}

/// The header line that opens a response to scripts of any origin.
pub open spec fn origin_line(any_origin: bool) -> Seq<char> {
    if any_origin {
        "Access-Control-Allow-Origin: *\r\n"@
    } else {
        Seq::empty()
    }
}

/// The header of a response with a body of `len` bytes.
pub open spec fn header_of(
    mime: Seq<char>,
    len: int,
    any_origin: bool,
    cache: CachePolicy,
) -> Seq<char> {
    "HTTP/1.1 200 OK\r\nContent-Type: "@ + mime + "\r\nContent-Length: "@ + decimal(len) + "\r\n"@
        + origin_line(any_origin) + cache_line(cache) + "Connection: close\r\n\r\n"@
}

/// A response with a text as its body; the length counts bytes.
pub open spec fn text_response(
    mime: Seq<char>,
    body: Seq<char>,
    any_origin: bool,
    cache: CachePolicy,
) -> Seq<char> {
    header_of(mime, encode_utf8(body).len() as int, any_origin, cache) + body
}

fn put_origin(out: &mut String, any_origin: bool)
    ensures
        final(out)@ == old(out)@ + origin_line(any_origin),
{
    if any_origin {
        out.append("Access-Control-Allow-Origin: *\r\n");
    } else {
        assert(out@ + Seq::empty() =~= out@);
    }
}

fn put_cache(out: &mut String, cache: CachePolicy)
    ensures
        final(out)@ == old(out)@ + cache_line(cache),
{
    match cache {
        CachePolicy::Unsaid => {
            assert(out@ + Seq::empty() =~= out@);
        },
        CachePolicy::NoCache => {
            out.append("Cache-Control: no-cache\r\n");
        },
        CachePolicy::OneHour => {
            out.append("Cache-Control: max-age=3600\r\n");
        },
    }
}

/// The header of a response with a body of `len` bytes.
pub fn content_header(mime: &str, len: u64, any_origin: bool, cache: CachePolicy) -> (r: String)
    ensures
        r@ == header_of(mime@, len as int, any_origin, cache),
{
    let mut out = copy_text("HTTP/1.1 200 OK\r\nContent-Type: ");
    out.append(mime);
    out.append("\r\nContent-Length: ");
    push_decimal(&mut out, len);
    out.append("\r\n");
    put_origin(&mut out, any_origin);
    put_cache(&mut out, cache);
    out.append("Connection: close\r\n\r\n");
    out
}

/// A response with a text as its body.
pub fn content_response(mime: &str, body: &str, any_origin: bool, cache: CachePolicy) -> (r: String)
    ensures
        r@ == text_response(mime@, body@, any_origin, cache),
{
    let mut out = content_header(mime, body.as_bytes().len() as u64, any_origin, cache);
    out.append(body);
    out
}

/// A JSON response.
pub fn json_response(body: &str) -> (r: String)
    ensures
        r@ == text_response("application/json"@, body@, false, CachePolicy::Unsaid),
{
    content_response("application/json", body, false, CachePolicy::Unsaid)
}

/// The header of a stream without an end.
pub open spec fn live_header(mime: Seq<char>) -> Seq<char> {
    "HTTP/1.1 200 OK\r\nContent-Type: "@ + mime
        + "\r\nConnection: close\r\nCache-Control: no-cache\r\n\r\n"@
}

/// The header of a stream without an end.
pub fn stream_header(mime: &str) -> (r: String)
    ensures
        r@ == live_header(mime@),
{
    let mut out = copy_text("HTTP/1.1 200 OK\r\nContent-Type: ");
    out.append(mime);
    out.append("\r\nConnection: close\r\nCache-Control: no-cache\r\n\r\n");
    out
}

/// The header of a recording that is played as FLV.
pub fn vod_header() -> (r: String)
    ensures
        r@
            == "HTTP/1.1 200 OK\r\nContent-Type: video/x-flv\r\nAccess-Control-Allow-Origin: *\r\nCache-Control: no-cache\r\nConnection: close\r\n\r\n"@,
{
    copy_text(
        "HTTP/1.1 200 OK\r\nContent-Type: video/x-flv\r\nAccess-Control-Allow-Origin: *\r\nCache-Control: no-cache\r\nConnection: close\r\n\r\n",
    )
}

/// What answers a request that cannot be served.
#[derive(Debug, Clone, Copy, PartialEq, Eq, Structural)]
pub enum Failure {
    /// The request is malformed.
    BadRequest,
    /// There is no such thing.
    NotFound,
    /// The client may not have it.
    Unauthorized,
    /// The client did not give the management secret.
    ApiUnauthorized,
}

/// The status line of a failure, and the headers before the length.
pub open spec fn failure_head(f: Failure) -> Seq<char> {
    match f {
        Failure::BadRequest => "HTTP/1.1 400 Bad Request\r\n"@,
        Failure::NotFound => "HTTP/1.1 404 Not Found\r\n"@,
        Failure::Unauthorized => "HTTP/1.1 401 Unauthorized\r\nContent-Type: text/plain\r\n"@,
        Failure::ApiUnauthorized =>
            "HTTP/1.1 401 Unauthorized\r\nContent-Type: application/json\r\nCache-Control: no-store\r\n"@,
    }
}

/// The body of a failure.
pub open spec fn failure_body(f: Failure) -> Seq<char> {
    match f {
        Failure::BadRequest => ""@,
        Failure::NotFound => "Not Found"@,
        Failure::Unauthorized => "Unauthorized"@,
        Failure::ApiUnauthorized => "{\"code\":-401,\"msg\":\"invalid or missing API secret\"}"@,
    }
}

/// The response for a failure; the length counts the bytes of the body.
pub open spec fn failure_text(f: Failure) -> Seq<char> {
    failure_head(f) + "Content-Length: "@ + decimal(encode_utf8(failure_body(f)).len() as int)
        + "\r\nConnection: close\r\n\r\n"@ + failure_body(f)
}

/// The response for a failure.
pub fn failure_response(f: Failure) -> (r: String)
    ensures
        r@ == failure_text(f),
{
    let (head, body) = match f {
        Failure::BadRequest => ("HTTP/1.1 400 Bad Request\r\n", ""),
        Failure::NotFound => ("HTTP/1.1 404 Not Found\r\n", "Not Found"),
        Failure::Unauthorized => (
            "HTTP/1.1 401 Unauthorized\r\nContent-Type: text/plain\r\n",
            "Unauthorized",
        ),
        Failure::ApiUnauthorized => (
            "HTTP/1.1 401 Unauthorized\r\nContent-Type: application/json\r\nCache-Control: no-store\r\n",
            "{\"code\":-401,\"msg\":\"invalid or missing API secret\"}",
        ),
    };
    let mut out = copy_text(head);
    out.append("Content-Length: ");
    push_decimal(&mut out, body.as_bytes().len() as u64);
    out.append("\r\nConnection: close\r\n\r\n");
    out.append(body);
    out
}

} // verus!
