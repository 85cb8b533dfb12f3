//! What the requests of the management interface ask for.
use vstd::prelude::*;
use vstd::string::*;
use crate::bytes::views;
use crate::http::api::{
    Params, find_rtp_stream, find_snap_stream, find_ssrc, number, number_in, number_or,
    number_or_else, rtp_stream, snap_stream, ssrc_in, text_in,
};
use crate::http::query::{NamedValues, parse_query, query_map, value_in, value_or};
use crate::text::{
    char_slice, chars_of, copy_text, cut_at_last, decimal, eq_ignore_case, find_text, first_place, is_text, lowered,
    parse_number, parsed_number, pieces, push_chars, push_decimal, same_text, split, split_once_last,
    strip_prefix, text_eq, text_of, without_prefix,
};

verus! {

/// Whether an optional number is the given one.
pub open spec fn same_u32(r: Option<u32>, m: Option<int>) -> bool {
    match (r, m) {
        (Some(a), Some(b)) => a == b,
        (None, None) => true,
        _ => false,
    }
}

/// Whether an optional port is the given number.
pub open spec fn same_port(r: Option<u16>, m: Option<int>) -> bool {
    match (r, m) {
        (Some(a), Some(b)) => a == b,
        (None, None) => true,
        _ => false,
    }
}

fn port_of(q: &NamedValues, name: &str) -> (r: Option<u16>)
    ensures
        same_port(r, number_in(q@, name@, 65535)),
{
    match number(q, name, 65535) {
        Some(n) => Some(n as u16),
        None => None,
    }
}

fn port_or_zero(q: &NamedValues, name: &str) -> (r: u16)
    ensures
        r == number_or(q@, name@, 65535, 0),
{
    match port_of(q, name) {
        Some(n) => n,
        None => 0,
    }
}

// ── streams ─────────────────────────────────────────────────────────────

/// A stream of the server.
pub struct StreamName {
    pub vhost: String,
    pub app: String,
    pub stream: String,
}

/// The model of a stream name.
#[verifier::ext_equal]
pub struct StreamModel {
    pub vhost: Seq<char>,
    pub app: Seq<char>,
    pub stream: Seq<char>,
}

impl View for StreamName {
    type V = StreamModel;

    open spec fn view(&self) -> StreamModel {
        StreamModel { vhost: self.vhost@, app: self.app@, stream: self.stream@ }
    }
}

/// The stream that a request names.
pub open spec fn stream_in(q: Params) -> StreamModel {
    StreamModel {
        vhost: value_or(q, "vhost"@, "__defaultVhost__"@),
        app: value_or(q, "app"@, "live"@),
        stream: text_in(q, "stream"@),
    }
}

fn named_stream(q: &NamedValues) -> (r: StreamName)
    ensures
        r@ == stream_in(q@),
{
    StreamName {
        vhost: q.get_or("vhost", "__defaultVhost__"),
        app: q.get_or("app", "live"),
        stream: q.get_or("stream", ""),
    }
}

/// The stream of which a snapshot is asked.
pub fn snap_request(path: &str) -> (r: StreamName)
    ensures
        r@ == (StreamModel { stream: snap_stream(query_map(path@)), ..stream_in(query_map(path@)) }),
{
    let q = parse_query(path);
    StreamName {
        vhost: q.get_or("vhost", "__defaultVhost__"),
        app: q.get_or("app", "live"),
        stream: find_snap_stream(&q),
    }
}

/// The streams that a request is about: those that agree with each part that
/// is given.
pub struct StreamFilter {
    pub vhost: Option<String>,
    pub app: Option<String>,
    pub stream: Option<String>,
}

/// The streams that a request is about.
pub fn stream_filter(path: &str) -> (r: StreamFilter)
    ensures
        same_text(r.vhost, value_in(query_map(path@), "vhost"@)),
        same_text(r.app, value_in(query_map(path@), "app"@)),
        same_text(r.stream, value_in(query_map(path@), "stream"@)),
{
    let q = parse_query(path);
    StreamFilter { vhost: q.get("vhost"), app: q.get("app"), stream: q.get("stream") }
}

// ── sessions ────────────────────────────────────────────────────────────

/// Which sessions are ended: one by its number, or those of a stream.
pub enum KickTarget {
    Session(String),
    Stream(StreamName),
}

/// Which sessions are ended; the number of a session comes first.
pub fn kick_target(path: &str) -> (r: KickTarget)
    ensures
        ({
            let q = query_map(path@);
            if text_in(q, "id"@).len() > 0 {
                r matches KickTarget::Session(id) && id@ == text_in(q, "id"@)
            } else {
                r matches KickTarget::Stream(s) && s@ == stream_in(q)
            }
        }),
{
    let q = parse_query(path);
    let id = q.get_or("id", "");
    if !id.as_str().is_empty() {
        KickTarget::Session(id)
    } else {
        KickTarget::Stream(named_stream(&q))
    }
}

/// Host and port of an address with a port that is a number.
pub open spec fn with_port(host: Seq<char>, port: Seq<char>) -> (Seq<char>, int) {
    match parsed_number(port, 65535) {
        Some(p) => (host, p),
        None => (Seq::empty(), 0),
    }
}

/// Host and port of an address, `host:port` or `[host]:port`; nothing and 0
/// for what is neither.
pub open spec fn address_parts(addr: Seq<char>) -> (Seq<char>, int) {
    match without_prefix(addr, "["@) {
        Some(rest) => match first_place(rest, "]:"@, 0) {
            Some(k) => with_port("["@ + rest.take(k) + "]"@, rest.skip(k + 2)),
            None => (Seq::empty(), 0),
        },
        None => match cut_at_last(addr, ':') {
            Some((host, port)) => with_port(host, port),
            None => (Seq::empty(), 0),
        },
    }
}

fn add_port(host: String, port: &[char]) -> (r: (String, u16))
    ensures
        r.0@ == with_port(host@, port@).0,
        r.1 == with_port(host@, port@).1,
{
    match parse_number(port, 65535) {
        Some(p) => (host, p as u16),
        None => (String::new(), 0),
    }
}

/// Host and port of an address; nothing and 0 for what is none.
pub fn split_addr(addr: &str) -> (r: (String, u16))
    ensures
        r.0@ == address_parts(addr@).0,
        r.1 == address_parts(addr@).1,
{
    let chars = chars_of(addr);
    match strip_prefix(chars.as_slice(), "[") {
        Some(rest) => match find_text(rest, "]:") {
            Some(k) => {
                proof {
                    reveal_strlit("]:");
                }
                let len: usize = rest.len();
                let host = char_slice(rest, 0, k);
                let port = char_slice(rest, k + 2, len);
                assert(host@ =~= rest@.take(k as int));
                assert(port@ =~= rest@.skip(k + 2));
                let mut out = copy_text("[");
                push_chars(&mut out, host);
                out.append("]");
                add_port(out, port)
            },
            None => (String::new(), 0),
        },
        None => match split_once_last(chars.as_slice(), ':') {
            Some((host, port)) => add_port(text_of(host), port),
            None => (String::new(), 0),
        },
    }
}

/// The sessions that a request is about.
pub struct SessionFilter {
    pub peer_ip: Option<String>,
    pub local_port: Option<u16>,
    pub typeid: Option<String>,
}

/// The sessions that a request is about.
pub fn session_filter(path: &str) -> (r: SessionFilter)
    ensures
        same_text(r.peer_ip, value_in(query_map(path@), "peer_ip"@)),
        same_port(r.local_port, number_in(query_map(path@), "local_port"@, 65535)),
        same_text(r.typeid, value_in(query_map(path@), "typeid"@)),
{
    let q = parse_query(path);
    SessionFilter {
        peer_ip: q.get("peer_ip"),
        local_port: port_of(&q, "local_port"),
        typeid: q.get("typeid"),
    }
}

/// Whether a session is listed: its peer is the one asked for, up to the first
/// colon, and its port behind the last colon.
pub open spec fn is_listed(f: SessionFilter, peer_addr: Seq<char>, local_addr: Seq<char>) -> bool {
    &&& match f.peer_ip {
        Some(ip) => pieces(peer_addr, ':')[0] == ip@,
        None => true,
    }
    &&& match f.local_port {
        Some(p) => parsed_number(pieces(local_addr, ':').last(), 65535) == Some(p as int),
        None => true,
    }
}

/// Whether a session is listed.
pub fn session_listed(f: &SessionFilter, peer_addr: &str, local_addr: &str) -> (r: bool)
    ensures
        r == is_listed(*f, peer_addr@, local_addr@),
{
    let ip_ok: bool = match &f.peer_ip {
        Some(ip) => {
            let chars = chars_of(peer_addr);
            let parts = split(chars.as_slice(), ':');
            assert(views(parts@)[0] == parts@[0]@);
            is_text(parts[0], ip.as_str())
        },
        None => true,
    };
    let port_ok: bool = match f.local_port {
        Some(p) => {
            let chars = chars_of(local_addr);
            let parts = split(chars.as_slice(), ':');
            let last: usize = parts.len() - 1;
            assert(views(parts@).last() == parts@[last as int]@);
            match parse_number(parts[last], 65535) {
                Some(n) => n == p as u64,
                None => false,
            }
        },
        None => true,
    };
    ip_ok && port_ok
}

/// What is played in a session: virtual host, application and stream.
pub fn session_stream(s: &StreamName) -> (r: String)
    ensures
        r@ == s@.vhost + "/"@ + s@.app + "/"@ + s@.stream,
{
    let mut out = copy_text(s.vhost.as_str());
    out.append("/");
    out.append(s.app.as_str());
    out.append("/");
    out.append(s.stream.as_str());
    out
}

// ── recordings ──────────────────────────────────────────────────────────

/// The period of which recordings are listed; all when it is empty.
pub fn record_period(path: &str) -> (r: String)
    ensures
        r@ == text_in(query_map(path@), "period"@),
{
    parse_query(path).get_or("period", "")
}

// ── transcoding ─────────────────────────────────────────────────────────

/// A request to transcode a stream.
pub struct TranscodeRequest {
    pub source: StreamName,
    pub input_codec: String,
    pub output_codec: String,
    pub scale: Option<(u32, u32)>,
    pub bitrate: Option<String>,
    pub name: Option<String>,
    pub dst_app: Option<String>,
    pub dst_stream: Option<String>,
}

/// Whether a text names H.265.
pub open spec fn names_h265(code: Seq<char>) -> bool {
    let c = lowered(code);
    c == lowered("H265"@) || c == lowered("H_265"@) || c == lowered("265"@) || c == lowered(
        "HEVC"@,
    ) || c == lowered("16777216"@)
}

/// The codec to transcode to: H.264 unless H.265 is named.
pub open spec fn output_codec(code: Seq<char>) -> Seq<char> {
    if names_h265(code) {
        "h265"@
    } else {
        "h264"@
    }
}

/// The picture size that a text gives: `width` and `height` around an `x`;
/// what follows a second `x` does not count.
pub open spec fn scale_of(text: Seq<char>) -> Option<(int, int)> {
    let parts = pieces(text, 'x');
    if parts.len() < 2 {
        None
    } else {
        match (
            parsed_number(parts[0], u32::MAX as int),
            parsed_number(parts[1], u32::MAX as int),
        ) {
            (Some(w), Some(h)) => Some((w, h)),
            _ => None,
        }
    }
}

/// The picture size that a request gives.
pub open spec fn scale_in(q: Params) -> Option<(int, int)> {
    match value_in(q, "scale"@) {
        Some(v) => scale_of(v),
        None => None,
    }
}

/// Whether an optional size is the given one.
pub open spec fn same_size(r: Option<(u32, u32)>, m: Option<(int, int)>) -> bool {
    match (r, m) {
        (Some(a), Some(b)) => a.0 == b.0 && a.1 == b.1,
        (None, None) => true,
        _ => false,
    }
}

/// The picture size that a text gives.
pub fn parse_scale(text: &str) -> (r: Option<(u32, u32)>)
    ensures
        same_size(r, scale_of(text@)),
{
    let chars = chars_of(text);
    let parts = split(chars.as_slice(), 'x');
    let ghost models = views(parts@);
    if parts.len() < 2 {
        return None;
    }
    assert(models[0] == parts@[0]@ && models[1] == parts@[1]@);
    match (parse_number(parts[0], u32::MAX as u64), parse_number(parts[1], u32::MAX as u64)) {
        (Some(w), Some(h)) => Some((w as u32, h as u32)),
        _ => None,
    }
}

/// The codec to transcode to.
pub fn normalize_codec(code: &str) -> (r: String)
    ensures
        r@ == output_codec(code@),
{
    let chars = chars_of(code);
    let c = chars.as_slice();
    if eq_ignore_case(c, "H265") || eq_ignore_case(c, "H_265") || eq_ignore_case(c, "265")
        || eq_ignore_case(c, "HEVC") || eq_ignore_case(c, "16777216") {
        copy_text("h265")
    } else {
        copy_text("h264")
    }
}

/// A request to transcode a stream.
pub fn transcode_request(path: &str) -> (r: TranscodeRequest)
    ensures
        ({
            let q = query_map(path@);
            &&& r.source@ == stream_in(q)
            &&& r.input_codec@ == text_in(q, "acodec"@)
            &&& r.output_codec@ == output_codec(value_or(q, "code"@, "H264"@))
            &&& same_size(r.scale, scale_in(q))
            &&& same_text(r.bitrate, value_in(q, "bitrate"@))
            &&& same_text(r.name, value_in(q, "name"@))
            &&& same_text(r.dst_app, value_in(q, "dst_app"@))
            &&& same_text(r.dst_stream, value_in(q, "dst_stream"@))
        }),
{
    let q = parse_query(path);
    let scale = match q.get("scale") {
        Some(v) => parse_scale(v.as_str()),
        None => None,
    };
    TranscodeRequest {
        source: named_stream(&q),
        input_codec: q.get_or("acodec", ""),
        output_codec: normalize_codec(q.get_or("code", "H264").as_str()),
        scale,
        bitrate: q.get("bitrate"),
        name: q.get("name"),
        dst_app: q.get("dst_app"),
        dst_stream: q.get("dst_stream"),
    }
}

/// The key of a running transcoder; `None` when the request names none.
pub fn transcode_key(path: &str) -> (r: Option<String>)
    ensures
        same_text(
            r,
            if text_in(query_map(path@), "key"@).len() > 0 {
                Some(text_in(query_map(path@), "key"@))
            } else {
                None
            },
        ),
{
    let key = parse_query(path).get_or("key", "");
    if key.as_str().is_empty() {
        None
    } else {
        Some(key)
    }
}

// ── pushing and pulling ─────────────────────────────────────────────────

/// A request to push a stream.
pub struct PushRequest {
    pub dst_url: String,
    pub source: StreamName,
}

/// A request to push a stream.
pub fn push_request(path: &str) -> (r: PushRequest)
    ensures
        r.dst_url@ == text_in(query_map(path@), "dst_url"@),
        r.source@ == stream_in(query_map(path@)),
{
    let q = parse_query(path);
    PushRequest { dst_url: q.get_or("dst_url", ""), source: named_stream(&q) }
}

/// A request to pull a stream.
pub struct PullRequest {
    pub url: String,
    pub target: StreamName,
}

/// A request to pull a stream.
pub fn pull_request(path: &str) -> (r: PullRequest)
    ensures
        r.url@ == text_in(query_map(path@), "url"@),
        r.target@ == stream_in(query_map(path@)),
{
    let q = parse_query(path);
    PullRequest { url: q.get_or("url", ""), target: named_stream(&q) }
}

/// A request to pull a stream with FFmpeg.
pub struct FfmpegRequest {
    pub src_url: String,
    pub dst_url: String,
    pub target: StreamName,
    pub timeout_ms: u32,
}

/// What follows the last slash of a text.
pub open spec fn last_part(text: Seq<char>) -> Seq<char> {
    match cut_at_last(text, '/') {
        Some((_, last)) => last,
        None => text,
    }
}

/// The stream that FFmpeg fills: the one that is named, or else the last part
/// of the destination.
pub open spec fn ffmpeg_stream(q: Params) -> StreamModel {
    let named = stream_in(q);
    if named.stream.len() == 0 {
        StreamModel { stream: last_part(text_in(q, "dst_url"@)), ..named }
    } else {
        named
    }
}

/// A request to pull a stream with FFmpeg.
pub fn ffmpeg_request(path: &str) -> (r: FfmpegRequest)
    ensures
        ({
            let q = query_map(path@);
            &&& r.src_url@ == text_in(q, "src_url"@)
            &&& r.dst_url@ == text_in(q, "dst_url"@)
            &&& r.target@ == ffmpeg_stream(q)
            &&& r.timeout_ms == number_or(q, "timeout_ms"@, u32::MAX as int, 10000)
        }),
{
    let q = parse_query(path);
    let dst_url = q.get_or("dst_url", "");
    let mut target = named_stream(&q);
    if target.stream.as_str().is_empty() {
        let chars = chars_of(dst_url.as_str());
        target.stream = match split_once_last(chars.as_slice(), '/') {
            Some((_, last)) => text_of(last),
            None => text_of(chars.as_slice()),
        };
    }
    let timeout_ms: u32 = number_or_else(&q, "timeout_ms", u32::MAX as u64, 10000) as u32;
    FfmpegRequest { src_url: q.get_or("src_url", ""), dst_url, target, timeout_ms }
}

// ── RTP ─────────────────────────────────────────────────────────────────

/// A request to receive RTP.
pub struct RtpServerRequest {
    pub port: u16,
    pub ssrc: Option<u32>,
    pub vhost: String,
    pub app: String,
    pub stream: String,
    /// The kind of payload; found out when absent.
    pub payload: Option<String>,
    pub tcp_mode: u8,
}

/// The stream that an RTP server fills; it is named after the port when the
/// request names none.
pub open spec fn rtp_target(q: Params) -> Seq<char> {
    match rtp_stream(q) {
        Some(v) => v,
        None => "rtp_"@ + decimal(number_or(q, "port"@, 65535, 0)),
    }
}

/// A request to receive RTP.
pub fn rtp_server_request(path: &str) -> (r: RtpServerRequest)
    ensures
        ({
            let q = query_map(path@);
            &&& r.port == number_or(q, "port"@, 65535, 0)
            &&& same_u32(r.ssrc, number_in(q, "ssrc"@, u32::MAX as int))
            &&& r.vhost@ == value_or(q, "vhost"@, "__defaultVhost__"@)
            &&& r.app@ == value_or(q, "app"@, "rtp"@)
            &&& r.stream@ == rtp_target(q)
            &&& same_text(r.payload, value_in(q, "type"@))
            &&& r.tcp_mode == number_or(q, "tcp_mode"@, 255, 0)
        }),
{
    let q = parse_query(path);
    let port: u16 = port_or_zero(&q, "port");
    let ssrc = match number(&q, "ssrc", u32::MAX as u64) {
        Some(n) => Some(n as u32),
        None => None,
    };
    let stream = match find_rtp_stream(&q) {
        Some(v) => v,
        None => {
            let mut s = copy_text("rtp_");
            push_decimal(&mut s, port as u64);
            s
        },
    };
    RtpServerRequest {
        port,
        ssrc,
        vhost: q.get_or("vhost", "__defaultVhost__"),
        app: q.get_or("app", "rtp"),
        stream,
        payload: q.get("type"),
        tcp_mode: number_or_else(&q, "tcp_mode", 255, 0) as u8,
    }
}

/// A request to connect an RTP server to a sender.
pub struct RtpConnectRequest {
    pub app: Option<String>,
    pub stream: String,
    pub dst_host: String,
    pub dst_port: u16,
}

/// A request to connect an RTP server to a sender.
pub fn rtp_connect_request(path: &str) -> (r: RtpConnectRequest)
    ensures
        ({
            let q = query_map(path@);
            &&& same_text(r.app, value_in(q, "app"@))
            &&& r.stream@ == rtp_stream(q).unwrap_or(""@)
            &&& r.dst_host@ == text_in(q, "dst_url"@)
            &&& r.dst_port == number_or(q, "dst_port"@, 65535, 0)
        }),
{
    let q = parse_query(path);
    let stream = match find_rtp_stream(&q) {
        Some(v) => v,
        None => copy_text(""),
    };
    RtpConnectRequest {
        app: q.get("app"),
        stream,
        dst_host: q.get_or("dst_url", ""),
        dst_port: port_or_zero(&q, "dst_port"),
    }
}

/// The port of an RTP server that a request names; 0 when it names none.
pub fn rtp_port(path: &str) -> (r: u16)
    ensures
        r == number_or(query_map(path@), "port"@, 65535, 0),
{
    port_or_zero(&parse_query(path), "port")
}

/// A request to send a stream as RTP.
pub struct RtpSendRequest {
    pub source: StreamName,
    pub ssrc: u32,
    pub dst_host: String,
    pub dst_port: u16,
    pub src_port: u16,
    pub payload_type: u8,
    pub is_udp: bool,
    /// How the stream is packed; which numbers mean what is up to the sender.
    pub data_type: u8,
    pub only_audio: bool,
    pub passive: bool,
    pub ssrc_multi_send: bool,
}

/// Whether a text says yes.
pub open spec fn says_yes(v: Seq<char>) -> bool {
    v == "1"@ || lowered(v) == lowered("true"@)
}

/// Whether a parameter says yes; `other` when it is absent.
pub open spec fn flag_in(q: Params, name: Seq<char>, other: bool) -> bool {
    match value_in(q, name) {
        Some(v) => says_yes(v),
        None => other,
    }
}

/// How a stream is packed: `use_ps` decides between 1 and 0, or else `type`.
pub open spec fn data_type_in(q: Params) -> int {
    match value_in(q, "use_ps"@) {
        Some(v) => if says_yes(v) {
            1
        } else {
            0
        },
        None => number_or(q, "type"@, 255, 1),
    }
}

fn flag(q: &NamedValues, name: &str, other: bool) -> (r: bool)
    ensures
        r == flag_in(q@, name@, other),
{
    match q.get(name) {
        Some(v) => {
            let chars = chars_of(v.as_str());
            text_eq(v.as_str(), "1") || eq_ignore_case(chars.as_slice(), "true")
        },
        None => other,
    }
}

/// A request to send a stream as RTP; `None` when it names no synchronization
/// source. A passive sender waits for a connection.
pub fn rtp_send_request(path: &str, passive: bool) -> (r: Option<RtpSendRequest>)
    ensures
        ({
            let q = query_map(path@);
            match ssrc_in(q) {
                None => r is None,
                Some(ssrc) => {
                    &&& r is Some
                    &&& r->0.source@ == stream_in(q)
                    &&& r->0.ssrc == ssrc
                    &&& r->0.dst_host@ == text_in(q, "dst_url"@)
                    &&& r->0.dst_port == number_or(q, "dst_port"@, 65535, 0)
                    &&& r->0.src_port == number_or(q, "src_port"@, 65535, 0)
                    &&& r->0.payload_type == number_or(q, "pt"@, 255, 96)
                    &&& r->0.is_udp == (!passive && flag_in(q, "is_udp"@, true))
                    &&& r->0.data_type == data_type_in(q)
                    &&& r->0.only_audio == flag_in(q, "only_audio"@, false)
                    &&& r->0.passive == passive
                    &&& r->0.ssrc_multi_send == flag_in(q, "ssrc_multi_send"@, false)
                },
            }
        }),
{
    let q = parse_query(path);
    let ssrc: u32 = match find_ssrc(&q) {
        Some(n) => n,
        None => {
            return None;
        },
    };
    let data_type: u8 = match q.get("use_ps") {
        Some(_) => if flag(&q, "use_ps", false) {
            1
        } else {
            0
        },
        None => number_or_else(&q, "type", 255, 1) as u8,
    };
    Some(
        RtpSendRequest {
            source: named_stream(&q),
            ssrc,
            dst_host: q.get_or("dst_url", ""),
            dst_port: port_or_zero(&q, "dst_port"),
            src_port: port_or_zero(&q, "src_port"),
            payload_type: number_or_else(&q, "pt", 255, 96) as u8,
            is_udp: !passive && flag(&q, "is_udp", true),
            data_type,
            only_audio: flag(&q, "only_audio", false),
            passive,
            ssrc_multi_send: flag(&q, "ssrc_multi_send", false),
        },
    )
}

/// The synchronization source of the sender to stop; `None` for all of a
/// stream.
pub fn stop_send_ssrc(path: &str) -> (r: Option<u32>)
    ensures
        same_u32(r, number_in(query_map(path@), "ssrc"@, u32::MAX as int)),
{
    match number(&parse_query(path), "ssrc", u32::MAX as u64) {
        Some(n) => Some(n as u32),
        None => None,
    }
}

/// A running RTP sender.
pub struct RtpSender {
    pub source: StreamName,
    pub ssrc: u32,
    pub bytes: u64,
}

/// Whether a sender sends the given stream.
pub open spec fn sends(s: RtpSender, stream: StreamModel) -> bool {
    s.source@.vhost == stream.vhost && s.source@.app == stream.app && s.source@.stream
        == stream.stream
}

/// The senders of a stream among the first `n`.
pub open spec fn senders_among(all: Seq<RtpSender>, stream: StreamModel, n: int) -> Seq<int>
    decreases n,
{
    if n <= 0 {
        Seq::empty()
    } else {
        let before = senders_among(all, stream, n - 1);
        if sends(all[n - 1], stream) {
            before.push(n - 1)
        } else {
            before
        }
    }
}

/// What the senders of a stream among the first `n` have sent.
pub open spec fn bytes_among(all: Seq<RtpSender>, stream: StreamModel, n: int) -> int
    decreases n,
{
    if n <= 0 {
        0
    } else if sends(all[n - 1], stream) {
        bytes_among(all, stream, n - 1) + all[n - 1].bytes
    } else {
        bytes_among(all, stream, n - 1)
    }
}

proof fn lemma_bytes_grow(all: Seq<RtpSender>, stream: StreamModel, a: int, b: int)
    requires
        0 <= a <= b <= all.len(),
    ensures
        0 <= bytes_among(all, stream, a) <= bytes_among(all, stream, b),
    decreases b,
{
    if b > 0 {
        if a < b {
            lemma_bytes_grow(all, stream, a, b - 1);
        } else {
            lemma_bytes_grow(all, stream, a - 1, b - 1);
        }
    }
}

/// The senders of the stream that a request names, by their places, and what
/// they have sent together; `None` when that is no number of 64 bits.
pub fn stream_senders(path: &str, all: &Vec<RtpSender>) -> (r: Option<(Vec<usize>, u64)>)
    ensures
        ({
            let stream = stream_in(query_map(path@));
            let total = bytes_among(all@, stream, all@.len() as int);
            if total > u64::MAX {
                r is None
            } else {
                r is Some && r.unwrap().1 == total && r.unwrap().0@.map_values(|i: usize| i as int)
                    == senders_among(all@, stream, all@.len() as int)
            }
        }),
{
    let stream = named_stream(&parse_query(path));
    let mut places: Vec<usize> = Vec::new();
    let mut total: u64 = 0;
    let mut i: usize = 0;
    assert(places@.map_values(|i: usize| i as int) =~= Seq::empty());
    while i < all.len()
        invariant
            i <= all@.len(),
            stream@ == stream_in(query_map(path@)),
            total == bytes_among(all@, stream@, i as int),
            places@.map_values(|i: usize| i as int) == senders_among(all@, stream@, i as int),
        decreases all@.len() - i,
    {
        let s = &all[i];
        if text_eq(s.source.vhost.as_str(), stream.vhost.as_str()) && text_eq(
            s.source.app.as_str(),
            stream.app.as_str(),
        ) && text_eq(s.source.stream.as_str(), stream.stream.as_str()) {
            let ghost before = places@.map_values(|i: usize| i as int);
            places.push(i);
            assert(places@.map_values(|i: usize| i as int) =~= before.push(i as int));
            proof {
                lemma_bytes_grow(all@, stream@, i + 1, all@.len() as int);
            }
            if total > u64::MAX - s.bytes {
                return None;
            }
            total = total + s.bytes;
        }
        i = i + 1;
    }
    Some((places, total))
}

// ── devices ─────────────────────────────────────────────────────────────

/// The device and channel that a request invites.
pub fn invite_request(path: &str) -> (r: (String, String))
    ensures
        ({
            let q = query_map(path@);
            &&& r.0@ == text_in(q, "device_id"@)
            &&& r.1@ == match value_in(q, "channel_id"@) {
                Some(v) => v,
                None => text_in(q, "stream"@),
            }
        }),
{
    let q = parse_query(path);
    let channel = match q.get("channel_id") {
        Some(v) => v,
        None => q.get_or("stream", ""),
    };
    (q.get_or("device_id", ""), channel)
}

/// The application and stream that a request stops receiving; `None` when it
/// names none.
pub fn stop_rtp_request(path: &str) -> (r: Option<(String, String)>)
    ensures
        ({
            let q = query_map(path@);
            let stream = match value_in(q, "stream"@) {
                Some(v) => Some(v),
                None => value_in(q, "channel_id"@),
            };
            match stream {
                Some(s) => r is Some && r.unwrap().0@ == value_or(q, "app"@, "gb28181"@)
                    && r.unwrap().1@ == s,
                None => r is None,
            }
        }),
{
    let q = parse_query(path);
    let stream = match q.get("stream") {
        Some(v) => Some(v),
        None => q.get("channel_id"),
    };
    match stream {
        Some(s) => Some((q.get_or("app", "gb28181"), s)),
        None => None,
    }
}

/// A request to talk to a device: what is sent to which channel of it.
pub struct TalkRequest {
    pub device_id: String,
    pub channel_id: String,
    pub source: StreamName,
}

/// A request to talk to a device.
pub fn talk_request(path: &str) -> (r: TalkRequest)
    ensures
        r.device_id@ == text_in(query_map(path@), "device_id"@),
        r.channel_id@ == text_in(query_map(path@), "channel_id"@),
        r.source@ == stream_in(query_map(path@)),
{
    let q = parse_query(path);
    TalkRequest {
        device_id: q.get_or("device_id", ""),
        channel_id: q.get_or("channel_id", ""),
        source: named_stream(&q),
    }
}

/// The device that a request is about, if it names one.
pub fn device_id(path: &str) -> (r: Option<String>)
    ensures
        same_text(r, value_in(query_map(path@), "device_id"@)),
{
    parse_query(path).get("device_id")
}

/// The channel with which talking ends; `None` when the request names none.
pub fn stop_talk_channel(path: &str) -> (r: Option<String>)
    ensures
        same_text(
            r,
            if text_in(query_map(path@), "channel_id"@).len() > 0 {
                Some(text_in(query_map(path@), "channel_id"@))
            } else {
                None
            },
        ),
{
    let channel = parse_query(path).get_or("channel_id", "");
    if channel.as_str().is_empty() {
        None
    } else {
        Some(channel)
    }
}

/// Which devices a request lists.
pub enum DeviceQuery {
    All,
    One(String),
}

/// Which devices a request lists: the one that it names, or all.
pub fn device_query(path: &str) -> (r: DeviceQuery)
    ensures
        match value_in(query_map(path@), "device_id"@) {
            Some(id) => r matches DeviceQuery::One(x) && x@ == id,
            None => r is All,
        },
{
    match device_id(path) {
        Some(id) => DeviceQuery::One(id),
        None => DeviceQuery::All,
    }
}

} // verus!
