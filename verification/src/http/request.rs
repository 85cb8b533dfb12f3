//! Requests: the request line, the switch to WebSocket, and which handler a
//! path goes to.
use vstd::prelude::*;
use vstd::utf8::{decode_utf8, valid_utf8};
use crate::bytes::views;
use crate::http::ws_session::{WsKind, parse_path_sign, path_parts};
use crate::text::{
    begins_with, chars_of, contains_text, cut_at, ends_with, finishes_with, first_at, holds_text,
    is_text, lines, lines_of, lossy_text, lossy_utf8, lower, lower_char, same_text, split,
    split_once, starts_with, text_of, trim, trimmed,
};

verus! {

/// The first line of a request; empty when there is none.
pub open spec fn first_line(text: Seq<char>) -> Seq<char> {
    let l = lines_of(text);
    if l.len() > 0 {
        l[0]
    } else {
        Seq::empty()
    }
}

/// The path of a request: what stands between the first and the second space
/// of its first line, or behind the first one.
pub open spec fn request_path(text: Seq<char>) -> Option<Seq<char>> {
    match cut_at(first_line(text), ' ') {
        Some((_, rest)) => match cut_at(rest, ' ') {
            Some((path, _)) => Some(path),
            None => Some(rest),
        },
        None => None,
    }
}

/// The path of a request.
pub fn parse_path(text: &str) -> (r: Option<String>)
    ensures
        same_text(r, request_path(text@)),
{
    let chars = chars_of(text);
    let all = lines(chars.as_slice());
    if all.len() == 0 {
        proof {
            let nothing = Seq::<char>::empty();
            assert(first_at(nothing, ' ', 0) is None);
        }
        return None;
    }
    assert(views(all@)[0] == all@[0]@);
    match split_once(all[0], ' ') {
        Some((_, rest)) => match split_once(rest, ' ') {
            Some((path, _)) => Some(text_of(path)),
            None => Some(text_of(rest)),
        },
        None => None,
    }
}

/// A path without its query.
pub open spec fn route_of(path: Seq<char>) -> Seq<char> {
    match cut_at(path, '?') {
        Some((route, _)) => route,
        None => path,
    }
}

/// A path without its query.
pub fn parse_route(path: &str) -> (r: String)
    ensures
        r@ == route_of(path@),
{
    let chars = chars_of(path);
    match split_once(chars.as_slice(), '?') {
        Some((route, _)) => text_of(route),
        None => text_of(chars.as_slice()),
    }
}

// ── WebSocket ───────────────────────────────────────────────────────────

/// Whether a request asks to switch to the WebSocket protocol.
pub open spec fn asks_websocket(text: Seq<char>) -> bool {
    holds_text(text, "Upgrade: websocket"@) || holds_text(text, "upgrade: websocket"@)
}

/// A letter in lower case. Besides the ASCII letters, the Kelvin sign is the
/// one character whose lower case is an ASCII letter.
pub open spec fn folded_char(c: char) -> char {
    if c as int == 0x212a {
        'k'
    } else {
        lower_char(c)
    }
}

/// Whether a line is the header with the given name, which is in lower case
/// and ends with a colon.
pub open spec fn is_header(line: Seq<char>, name: Seq<char>) -> bool {
    line.len() >= name.len() && forall|i: int|
        0 <= i < name.len() ==> folded_char(#[trigger] line[i]) == name[i]
}

/// The value of the first header with the given name among the lines from `i`
/// on.
pub open spec fn header_among(all: Seq<Seq<char>>, name: Seq<char>, i: int) -> Option<Seq<char>>
    decreases all.len() - i,
{
    if i < 0 || i >= all.len() {
        None
    } else if is_header(all[i], name) {
        match cut_at(all[i], ':') {
            Some((_, value)) => Some(trimmed(value)),
            None => None,
        }
    } else {
        header_among(all, name, i + 1)
    }
}

/// The key of a client that asks to switch; empty when it sends none.
pub open spec fn websocket_key(text: Seq<char>) -> Seq<char> {
    match header_among(lines_of(text), "sec-websocket-key:"@, 0) {
        Some(key) => key,
        None => Seq::empty(),
    }
}

fn matches_header(line: &[char], name: &str) -> (r: bool)
    ensures
        r == is_header(line@, name@),
{
    let n = chars_of(name);
    if line.len() < n.len() {
        return false;
    }
    let mut i: usize = 0;
    while i < n.len()
        invariant
            n@ == name@,
            i <= n@.len() <= line@.len(),
            forall|j: int| 0 <= j < i ==> folded_char(#[trigger] line@[j]) == name@[j],
        decreases n@.len() - i,
    {
        let c: char = if line[i] as u32 == 0x212a {
            'k'
        } else {
            lower(line[i])
        };
        assert(c == folded_char(line@[i as int]));
        if c != n[i] {
            return false;
        }
        i = i + 1;
    }
    true
}

/// The key of a client that asks to switch; empty when it sends none.
pub fn find_websocket_key(text: &str) -> (r: String)
    ensures
        r@ == websocket_key(text@),
{
    let chars = chars_of(text);
    let all = lines(chars.as_slice());
    let ghost models = views(all@);
    let mut i: usize = 0;
    while i < all.len()
        invariant
            i <= all@.len(),
            models == views(all@),
            models == lines_of(text@),
            header_among(models, "sec-websocket-key:"@, i as int) == header_among(
                models,
                "sec-websocket-key:"@,
                0,
            ),
        decreases all@.len() - i,
    {
        assert(models[i as int] == all@[i as int]@);
        if matches_header(all[i], "sec-websocket-key:") {
            return match split_once(all[i], ':') {
                Some((_, value)) => text_of(trim(value)),
                None => String::new(),
            };
        }
        i = i + 1;
    }
    String::new()
}

/// How a route is played over WebSocket.
pub open spec fn websocket_kind(route: Seq<char>) -> WsKind {
    if finishes_with(route, ".live.ts"@) {
        WsKind::Ts
    } else if finishes_with(route, ".live.mp4"@) {
        WsKind::Fmp4
    } else {
        WsKind::Flv
    }
}

// ── routes ──────────────────────────────────────────────────────────────

/// Whether a route plays a stream, so that the access hook is asked; the
/// management interface does not.
pub open spec fn plays_stream(route: Seq<char>) -> bool {
    !begins_with(route, "/index/api/"@) && has_stream_suffix(route)
}

/// Whether a route ends like that of a stream.
pub open spec fn has_stream_suffix(route: Seq<char>) -> bool {
    ||| finishes_with(route, ".flv"@)
    ||| finishes_with(route, ".live.ts"@)
    ||| finishes_with(route, ".live.mp4"@)
    ||| finishes_with(route, ".m3u8"@)
    ||| finishes_with(route, ".cmav.m3u8"@)
    ||| finishes_with(route, ".mpd"@)
    ||| finishes_with(route, ".m4s"@)
    ||| finishes_with(route, ".ts"@)
}

/// Whether a route plays a stream.
pub fn is_play_route(route: &str) -> (r: bool)
    ensures
        r == plays_stream(route@),
{
    let chars = chars_of(route);
    let s = chars.as_slice();
    if starts_with(s, "/index/api/") {
        return false;
    }
    ends_with(s, ".flv") || ends_with(s, ".live.ts") || ends_with(s, ".live.mp4") || ends_with(
        s,
        ".m3u8",
    ) || ends_with(s, ".cmav.m3u8") || ends_with(s, ".mpd") || ends_with(s, ".m4s") || ends_with(
        s,
        ".ts",
    )
}

/// The handler of a request.
#[derive(Debug, Clone, Copy, PartialEq, Eq, Structural)]
pub enum Route {
    Api,
    Vod,
    Flv,
    Ts,
    Fmp4,
    DashMpd,
    /// A CMAF segment, or else a DASH segment.
    M4s,
    DashInit,
    CmafPlaylist,
    HlsPlaylist,
    HlsSegment,
    /// The built-in start page.
    Index,
    /// A file below the web root.
    Static,
    NotFound,
}

/// The handler for a route: the management interface and recordings by their
/// prefix, streams by their suffix, and the web root for the rest.
pub open spec fn handler_for(route: Seq<char>, has_web_root: bool) -> Route {
    if begins_with(route, "/index/api/"@) {
        Route::Api
    } else if begins_with(route, "/record/"@) {
        Route::Vod
    } else if finishes_with(route, ".flv"@) {
        Route::Flv
    } else if finishes_with(route, ".live.ts"@) {
        Route::Ts
    } else if finishes_with(route, ".live.mp4"@) {
        Route::Fmp4
    } else if finishes_with(route, ".mpd"@) {
        Route::DashMpd
    } else if finishes_with(route, ".m4s"@) {
        Route::M4s
    } else if finishes_with(route, "init.mp4"@) {
        Route::DashInit
    } else if finishes_with(route, ".cmav.m3u8"@) {
        Route::CmafPlaylist
    } else if finishes_with(route, ".m3u8"@) {
        Route::HlsPlaylist
    } else if finishes_with(route, ".ts"@) {
        Route::HlsSegment
    } else if has_web_root {
        Route::Static
    } else if route == "/"@ || route == "/index.html"@ {
        Route::Index
    } else {
        Route::NotFound
    }
}

/// The handler for a route.
pub fn select_handler(route: &str, has_web_root: bool) -> (r: Route)
    ensures
        r == handler_for(route@, has_web_root),
{
    let chars = chars_of(route);
    let s = chars.as_slice();
    if starts_with(s, "/index/api/") {
        Route::Api
    } else if starts_with(s, "/record/") {
        Route::Vod
    } else if ends_with(s, ".flv") {
        Route::Flv
    } else if ends_with(s, ".live.ts") {
        Route::Ts
    } else if ends_with(s, ".live.mp4") {
        Route::Fmp4
    } else if ends_with(s, ".mpd") {
        Route::DashMpd
    } else if ends_with(s, ".m4s") {
        Route::M4s
    } else if ends_with(s, "init.mp4") {
        Route::DashInit
    } else if ends_with(s, ".cmav.m3u8") {
        Route::CmafPlaylist
    } else if ends_with(s, ".m3u8") {
        Route::HlsPlaylist
    } else if ends_with(s, ".ts") {
        Route::HlsSegment
    } else if has_web_root {
        Route::Static
    } else if is_text(s, "/") || is_text(s, "/index.html") {
        Route::Index
    } else {
        Route::NotFound
    }
}

/// What to do about a request.
pub enum Dispatch {
    /// Answer that the request is malformed.
    BadRequest,
    /// Switch to the WebSocket protocol and play.
    WebSocket { key: String, kind: WsKind, path: String },
    /// Answer over HTTP; `ask_hook` says whether the access hook is asked
    /// first.
    Http { route: Route, ask_hook: bool, path: String },
}

/// The model of a dispatch.
pub enum DispatchModel {
    BadRequest,
    WebSocket { key: Seq<char>, kind: WsKind, path: Seq<char> },
    Http { route: Route, ask_hook: bool, path: Seq<char> },
}

impl View for Dispatch {
    type V = DispatchModel;

    open spec fn view(&self) -> DispatchModel {
        match self {
            Dispatch::BadRequest => DispatchModel::BadRequest,
            Dispatch::WebSocket { key, kind, path } => DispatchModel::WebSocket {
                key: key@,
                kind: *kind,
                path: path@,
            },
            Dispatch::Http { route, ask_hook, path } => DispatchModel::Http {
                route: *route,
                ask_hook: *ask_hook,
                path: path@,
            },
        }
    }
}

/// What to do about a request: without a path it is malformed; with a
/// WebSocket key it switches; else its route decides.
pub open spec fn dispatched(text: Seq<char>, has_web_root: bool) -> DispatchModel {
    match request_path(text) {
        None => DispatchModel::BadRequest,
        Some(path) => if asks_websocket(text) && websocket_key(text).len() > 0 {
            DispatchModel::WebSocket {
                key: websocket_key(text),
                kind: websocket_kind(route_of(path)),
                path,
            }
        } else {
            DispatchModel::Http {
                route: handler_for(route_of(path), has_web_root),
                ask_hook: plays_stream(route_of(path)),
                path,
            }
        },
    }
}

/// The text of a request.
pub fn request_text(bytes: &[u8]) -> (r: String)
    ensures
        r@ == lossy_utf8(bytes@),
        valid_utf8(bytes@) ==> r@ == decode_utf8(bytes@),
{
    lossy_text(bytes)
}

/// What to do about a request.
pub fn dispatch(text: &str, has_web_root: bool) -> (r: Dispatch)
    ensures
        r@ == dispatched(text@, has_web_root),
{
    let path = match parse_path(text) {
        Some(p) => p,
        None => {
            return Dispatch::BadRequest;
        },
    };
    let route = parse_route(path.as_str());
    let chars = chars_of(text);
    let upgrade: bool = contains_text(chars.as_slice(), "Upgrade: websocket") || contains_text(
        chars.as_slice(),
        "upgrade: websocket",
    );
    if upgrade {
        let key = find_websocket_key(text);
        if !key.as_str().is_empty() {
            let rc = chars_of(route.as_str());
            let kind = if ends_with(rc.as_slice(), ".live.ts") {
                WsKind::Ts
            } else if ends_with(rc.as_slice(), ".live.mp4") {
                WsKind::Fmp4
            } else {
                WsKind::Flv
            };
            return Dispatch::WebSocket { key, kind, path };
        }
    }
    let handler = select_handler(route.as_str(), has_web_root);
    let ask_hook: bool = is_play_route(route.as_str());
    Dispatch::Http { route: handler, ask_hook, path }
}

/// The address of a client without its port.
pub open spec fn client_of(peer_addr: Seq<char>) -> Seq<char> {
    crate::text::pieces(peer_addr, ':')[0]
}

/// What the access hook is told: application, resource, signature and the
/// address of the client without its port.
pub fn hook_params(path: &str, peer_addr: &str) -> (r: (String, String, String, String))
    ensures
        ({
            let parts = path_parts(path@);
            &&& r.0@ == parts.app
            &&& r.1@ == parts.resource
            &&& r.2@ == parts.sign
            &&& r.3@ == client_of(peer_addr@)
            &&& r.3@ == crate::text::pieces(peer_addr@, ':')[0]
        }),
{
    let (app, resource, sign) = parse_path_sign(path);
    let chars = chars_of(peer_addr);
    let parts = split(chars.as_slice(), ':');
    assert(views(parts@)[0] == parts@[0]@);
    let ip = text_of(parts[0]);
    (app, resource, sign, ip)
}

/// Every route of the management interface goes to its handler, whatever it
/// ends with, and is no route of a stream.
pub proof fn law_api_prefix_decides(rest: Seq<char>, has_web_root: bool)
    ensures
        handler_for("/index/api/"@ + rest, has_web_root) == Route::Api,
        !plays_stream("/index/api/"@ + rest),
{
    let route = "/index/api/"@ + rest;
    assert(route.take("/index/api/"@.len() as int) =~= "/index/api/"@);
}

/// The access hook is asked about every request that a stream handler gets,
/// but for the initialization segment.
pub proof fn law_stream_handlers_ask_hook(route: Seq<char>, has_web_root: bool)
    requires
        ({
            let h = handler_for(route, has_web_root);
            h == Route::Flv || h == Route::Ts || h == Route::Fmp4 || h == Route::DashMpd || h
                == Route::M4s || h == Route::CmafPlaylist || h == Route::HlsPlaylist || h
                == Route::HlsSegment
        }),
    ensures
        plays_stream(route),
{
}

} // verus!
