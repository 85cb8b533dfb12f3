//! Responses of upstream servers: head, body in chunks or of a known length.
use vstd::prelude::*;
use vstd::string::*;
use vstd::utf8::{decode_utf8, valid_utf8};
use crate::bytes::{bytes_eq, slice, to_vec, views};
use crate::http::query::{NamedValues, value_in};
use crate::http::url::{HttpUrl, UrlModel, resolved};
use crate::text::{
    chars_of, contains_text, copy_text, cut_at, decode_text, first_place, holds_text, is_white,
    is_whitespace, lowered, parse_number, parsed_number, pieces_text, split_once, split_text,
    text_of, to_lower, trim, trim_white_front, trimmed,
};

verus! {

/// The largest head that is read.
pub const MAX_HEADER_SIZE: usize = 65536;

/// How often a redirect is followed.
pub const MAX_REDIRECTS: u32 = 5;

/// What is wrong with a response.
#[derive(Debug, Clone, Copy, PartialEq, Eq, Structural)]
pub enum UpstreamError {
    HeaderTooLarge,
    /// The connection ended before the head did.
    NoHeader,
    /// The head, or the line with the size of a chunk, is no text.
    NotText,
    StatusLine,
    MissingLocation,
    TooManyRedirects,
    Status(u16),
    ContentLength,
    ChunkHeaderTruncated,
    ChunkBodyTruncated,
    ChunkSize,
    ChunkTerminator,
    BodyTooLarge,
}

// ── searching bytes ─────────────────────────────────────────────────────

/// The first place of `needle` in `haystack`.
pub fn find_bytes(haystack: &[u8], needle: &[u8]) -> (r: Option<usize>)
    requires
        needle@.len() > 0,
    ensures
        match (r, first_place(haystack@, needle@, 0)) {
            (Some(a), Some(b)) => a == b && a + needle@.len() <= haystack@.len(),
            (None, None) => true,
            _ => false,
        },
{
    let n: usize = needle.len();
    let len: usize = haystack.len();
    let mut i: usize = 0;
    while i <= len && n <= len - i
        invariant
            n == needle@.len() > 0,
            len == haystack@.len(),
            i <= len,
            first_place(haystack@, needle@, i as int) == first_place(haystack@, needle@, 0),
        decreases len - i,
    {
        if bytes_eq(slice(haystack, i, i + n), needle) {
            return Some(i);
        }
        i = i + 1;
    }
    None
}

// ── head ────────────────────────────────────────────────────────────────

/// The request for an address.
pub open spec fn request_for(u: UrlModel) -> Seq<char> {
    "GET "@ + u.path + " HTTP/1.1\r\nHost: "@ + u.authority
        + "\r\nUser-Agent: zlmediakit-rs/0.1\r\nAccept: */*\r\nConnection: close\r\n\r\n"@
}

/// The request for an address.
pub fn request_text_for(url: &HttpUrl) -> (r: String)
    ensures
        r@ == request_for(url@),
{
    let mut out = copy_text("GET ");
    out.append(url.path.as_str());
    out.append(" HTTP/1.1\r\nHost: ");
    out.append(url.authority.as_str());
    out.append("\r\nUser-Agent: zlmediakit-rs/0.1\r\nAccept: */*\r\nConnection: close\r\n\r\n");
    out
}

/// The end of a head: an empty line.
pub open spec fn blank_line() -> Seq<u8> {
    seq![13, 10, 13, 10]
}

/// Whether the head of a response is complete.
#[derive(Debug, Clone, Copy, PartialEq, Eq, Structural)]
pub enum HeadProgress {
    /// It has this many bytes, before the empty line.
    Complete(usize),
    /// More must be read.
    NeedMore,
    TooLarge,
}

/// Whether the head of a response is complete in what was read: it ends at an
/// empty line.
pub open spec fn head_state(buffer: Seq<u8>) -> HeadProgress {
    match first_place(buffer, blank_line(), 0) {
        Some(k) => HeadProgress::Complete(k as usize),
        None => if buffer.len() >= MAX_HEADER_SIZE {
            HeadProgress::TooLarge
        } else {
            HeadProgress::NeedMore
        },
    }
}

/// Whether the head of a response is complete in what was read.
pub fn head_progress(buffer: &[u8]) -> (r: HeadProgress)
    ensures
        r == head_state(buffer@),
        match first_place(buffer@, blank_line(), 0) {
            Some(k) => r == HeadProgress::Complete(k as usize) && 0 <= k && k + 4 <= buffer@.len(),
            None => r == if buffer@.len() >= MAX_HEADER_SIZE {
                HeadProgress::TooLarge
            } else {
                HeadProgress::NeedMore
            },
        },
{
    let end: Vec<u8> = vec![13, 10, 13, 10];
    assert(end@ =~= blank_line());
    match find_bytes(buffer, end.as_slice()) {
        Some(k) => HeadProgress::Complete(k),
        None => if buffer.len() >= MAX_HEADER_SIZE {
            HeadProgress::TooLarge
        } else {
            HeadProgress::NeedMore
        },
    }
}

/// A text up to its first white space.
pub open spec fn up_to_white(s: Seq<char>) -> Seq<char>
    decreases s.len(),
{
    if s.len() == 0 || is_white(s[0]) {
        Seq::empty()
    } else {
        seq![s[0]] + up_to_white(s.skip(1))
    }
}

/// The first word of a text; empty when it has none.
pub open spec fn first_word(s: Seq<char>) -> Seq<char> {
    up_to_white(trim_white_front(s))
}

/// The second word of a text; empty when it has none.
pub open spec fn second_word(s: Seq<char>) -> Seq<char> {
    let t = trim_white_front(s);
    first_word(t.skip(up_to_white(t).len() as int))
}

fn skip_white(s: &[char]) -> (r: &[char])
    ensures
        r@ == trim_white_front(s@),
{
    let mut i: usize = 0;
    assert(s@.skip(0) =~= s@);
    while i < s.len() && is_whitespace(s[i])
        invariant
            i <= s@.len(),
            trim_white_front(s@.skip(i as int)) == trim_white_front(s@),
        decreases s@.len() - i,
    {
        assert(s@.skip(i as int)[0] == s@[i as int]);
        assert(s@.skip(i as int).skip(1) =~= s@.skip(i + 1));
        i = i + 1;
    }
    let t = crate::text::char_slice(s, i, s.len());
    assert(t@ =~= s@.skip(i as int));
    if i < s.len() {
        assert(s@.skip(i as int)[0] == s@[i as int]);
    }
    t
}

fn word_end(s: &[char]) -> (r: usize)
    ensures
        r == up_to_white(s@).len() <= s@.len(),
        s@.take(r as int) == up_to_white(s@),
{
    let mut i: usize = 0;
    proof {
        assert(s@.skip(0) =~= s@);
        assert(s@.take(0) + up_to_white(s@) =~= up_to_white(s@));
    }
    while i < s.len() && !is_whitespace(s[i])
        invariant
            i <= s@.len(),
            s@.take(i as int) + up_to_white(s@.skip(i as int)) == up_to_white(s@),
        decreases s@.len() - i,
    {
        proof {
            let rest = s@.skip(i as int);
            assert(rest[0] == s@[i as int]);
            assert(rest.skip(1) =~= s@.skip(i + 1));
            assert(s@.take(i as int) + (seq![rest[0]] + up_to_white(rest.skip(1))) =~= s@.take(
                i + 1,
            ) + up_to_white(s@.skip(i + 1)));
        }
        i = i + 1;
    }
    if i < s.len() {
        assert(s@.skip(i as int)[0] == s@[i as int]);
    }
    assert(up_to_white(s@.skip(i as int)) =~= Seq::empty());
    assert(s@.take(i as int) + Seq::<char>::empty() =~= s@.take(i as int));
    i
}

fn find_second_word(s: &[char]) -> (r: Vec<char>)
    ensures
        r@ == second_word(s@),
{
    let t = skip_white(s);
    let n: usize = word_end(t);
    let rest = crate::text::char_slice(t, n, t.len());
    assert(rest@ =~= t@.skip(n as int));
    let u = skip_white(rest);
    let m: usize = word_end(u);
    let word = crate::text::char_slice(u, 0, m);
    assert(word@ =~= u@.take(m as int));
    crate::text::char_vec(word)
}

/// The headers that the first `n` lines give, without the first line: names
/// are in lower case, and a later one replaces an earlier one.
pub open spec fn headers_of(all: Seq<Seq<char>>, n: int) -> Map<Seq<char>, Seq<char>>
    decreases n,
{
    if n <= 1 {
        Map::empty()
    } else {
        let before = headers_of(all, n - 1);
        match cut_at(all[n - 1], ':') {
            Some((name, value)) => before.insert(lowered(trimmed(name)), trimmed(value)),
            None => before,
        }
    }
}

/// The head of a response: status and headers.
pub struct ResponseHead {
    pub status: u16,
    pub headers: NamedValues,
}

/// Status and headers of a head.
pub open spec fn head_of(bytes: Seq<u8>) -> Result<
    (int, Map<Seq<char>, Seq<char>>),
    UpstreamError,
> {
    if !valid_utf8(bytes) {
        Err(UpstreamError::NotText)
    } else {
        let all = pieces_text(decode_utf8(bytes), "\r\n"@);
        match parsed_number(second_word(all[0]), 65535) {
            Some(status) => Ok((status, headers_of(all, all.len() as int))),
            None => Err(UpstreamError::StatusLine),
        }
    }
}

/// Status and headers of a head, given without the empty line behind it.
pub fn parse_head(bytes: &[u8]) -> (r: Result<ResponseHead, UpstreamError>)
    ensures
        match (r, head_of(bytes@)) {
            (Ok(a), Ok(b)) => a.status == b.0 && a.headers@ == b.1,
            (Err(a), Err(b)) => a == b,
            _ => false,
        },
{
    let text = match decode_text(to_vec(bytes)) {
        Some(t) => t,
        None => {
            return Err(UpstreamError::NotText);
        },
    };
    proof {
        reveal_strlit("\r\n");
    }
    let chars = chars_of(text.as_str());
    let all = split_text(chars.as_slice(), "\r\n");
    let ghost models = views(all@);
    assert(models[0] == all@[0]@);
    let word = find_second_word(all[0]);
    let status: u16 = match parse_number(word.as_slice(), 65535) {
        Some(n) => n as u16,
        None => {
            return Err(UpstreamError::StatusLine);
        },
    };
    let mut headers = NamedValues::new();
    let mut i: usize = 1;
    while i < all.len()
        invariant
            1 <= i <= all@.len(),
            models == views(all@),
            headers@ == headers_of(models, i as int),
        decreases all@.len() - i,
    {
        assert(models[i as int] == all@[i as int]@);
        if let Some((name, value)) = split_once(all[i], ':') {
            let low = to_lower(trim(name));
            headers = headers.with(text_of(low.as_slice()), text_of(trim(value)));
        }
        i = i + 1;
    }
    Ok(ResponseHead { status, headers })
}

/// What is done about a response.
pub enum ResponseAction {
    /// It is somewhere else.
    Redirect(String),
    /// Its body is read: in chunks, or up to a length, or to the end.
    Accept { chunked: bool, length: Option<u64> },
}

/// The model of what is done about a response.
pub enum ActionModel {
    Redirect(Seq<char>),
    Accept { chunked: bool, length: Option<int> },
}

impl View for ResponseAction {
    type V = ActionModel;

    open spec fn view(&self) -> ActionModel {
        match self {
            ResponseAction::Redirect(url) => ActionModel::Redirect(url@),
            ResponseAction::Accept { chunked, length } => ActionModel::Accept {
                chunked: *chunked,
                length: match length {
                    Some(n) => Some(*n as int),
                    None => None,
                },
            },
        }
    }
}

/// Whether a status says that a response is somewhere else.
pub open spec fn is_redirect(status: int) -> bool {
    status == 301 || status == 302 || status == 303 || status == 307 || status == 308
}

/// What is done about a response from the given address.
pub open spec fn response_action(
    base: UrlModel,
    status: int,
    headers: Map<Seq<char>, Seq<char>>,
) -> Result<ActionModel, UpstreamError> {
    if is_redirect(status) {
        match value_in(headers, "location"@) {
            Some(location) => Ok(ActionModel::Redirect(resolved(base, location))),
            None => Err(UpstreamError::MissingLocation),
        }
    } else if status < 200 || status >= 300 {
        Err(UpstreamError::Status(status as u16))
    } else {
        let chunked = match value_in(headers, "transfer-encoding"@) {
            Some(v) => holds_text(lowered(v), "chunked"@),
            None => false,
        };
        match value_in(headers, "content-length"@) {
            Some(v) => match parsed_number(v, u64::MAX as int) {
                Some(n) => Ok(ActionModel::Accept { chunked, length: Some(n) }),
                None => Err(UpstreamError::ContentLength),
            },
            None => Ok(ActionModel::Accept { chunked, length: None }),
        }
    }
}

/// What is done about a response from the given address.
pub fn act_on_response(base: &HttpUrl, head: &ResponseHead) -> (r: Result<
    ResponseAction,
    UpstreamError,
>)
    ensures
        match (r, response_action(base@, head.status as int, head.headers@)) {
            (Ok(a), Ok(b)) => a@ == b,
            (Err(a), Err(b)) => a == b,
            _ => false,
        },
{
    let status: u16 = head.status;
    if status == 301 || status == 302 || status == 303 || status == 307 || status == 308 {
        return match head.headers.get("location") {
            Some(location) => Ok(ResponseAction::Redirect(base.resolve(location.as_str()))),
            None => Err(UpstreamError::MissingLocation),
        };
    }
    if status < 200 || status >= 300 {
        return Err(UpstreamError::Status(status));
    }
    let chunked: bool = match head.headers.get("transfer-encoding") {
        Some(v) => {
            let chars = chars_of(v.as_str());
            let low = to_lower(chars.as_slice());
            contains_text(low.as_slice(), "chunked")
        },
        None => false,
    };
    match head.headers.get("content-length") {
        Some(v) => {
            let chars = chars_of(v.as_str());
            match parse_number(chars.as_slice(), u64::MAX) {
                Some(n) => Ok(ResponseAction::Accept { chunked, length: Some(n) }),
                None => Err(UpstreamError::ContentLength),
            }
        },
        None => Ok(ResponseAction::Accept { chunked, length: None }),
    }
}

/// Whether another redirect is followed after `followed` ones.
pub open spec fn follows_redirect(followed: u32) -> bool {
    followed < MAX_REDIRECTS
}

/// Whether another redirect is followed after `followed` ones.
pub fn may_redirect(followed: u32) -> (r: Result<(), UpstreamError>)
    ensures
        r is Ok <==> follows_redirect(followed),
        r == if followed < MAX_REDIRECTS {
            Ok::<(), UpstreamError>(())
        } else {
            Err(UpstreamError::TooManyRedirects)
        },
{
    if followed < MAX_REDIRECTS {
        Ok(())
    } else {
        Err(UpstreamError::TooManyRedirects)
    }
}

} // verus!
