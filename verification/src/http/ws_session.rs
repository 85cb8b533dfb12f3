//! Live playback over WebSocket: who may play, and what is sent when.
use vstd::prelude::*;
use crate::bytes::{to_vec, views};
use crate::http::ws::{
    WsFrame, WsModel, binary_frame, close_frame, encoded, pong_frame,
};
use crate::media::{FrameModel, FrameType, MediaFrame};
use crate::mp4::fmp4::{
    Fmp4Model, Fmp4Muxer, after_flush, empty_fmp4, flushable, flushed_segment, fmp4_pushed, init_bytes,
    samples_wait,
};
use crate::mp4::muxer::opt_bytes;
use crate::text::{
    chars_of, copy_text, cut_at, is_text, pieces, split, split_once, strip_suffix, text_of,
    trim_front, trim_start_char, without_suffix,
};

verus! {

/// The parts of a playback path: application, resource and signature.
#[verifier::ext_equal]
pub struct PathParts {
    pub app: Seq<char>,
    pub resource: Seq<char>,
    pub sign: Seq<char>,
}

/// The value of the first parameter with the given name among the pairs from
/// `i` on; what has no `=` is no parameter.
pub open spec fn parameter_in(pairs: Seq<Seq<char>>, name: Seq<char>, i: int) -> Option<Seq<char>>
    decreases pairs.len() - i,
{
    if i < 0 || i >= pairs.len() {
        None
    } else {
        match cut_at(pairs[i], '=') {
            Some((k, v)) => if k == name {
                Some(v)
            } else {
                parameter_in(pairs, name, i + 1)
            },
            None => parameter_in(pairs, name, i + 1),
        }
    }
}

/// The value of the first parameter with the given name in a query.
pub open spec fn query_parameter(query: Seq<char>, name: Seq<char>) -> Option<Seq<char>> {
    parameter_in(pieces(query, '&'), name, 0)
}

/// Application, resource and signature of a playback path.
pub open spec fn path_parts(path: Seq<char>) -> PathParts {
    let p = trim_front(path, '/');
    let (only, sign) = match cut_at(p, '?') {
        Some((only, query)) => (
            only,
            match query_parameter(query, "sign"@) {
                Some(v) => v,
                None => Seq::empty(),
            },
        ),
        None => (p, Seq::empty()),
    };
    match cut_at(only, '/') {
        Some((app, resource)) => PathParts { app, resource, sign },
        None => PathParts { app: only, resource: Seq::empty(), sign },
    }
}

/// The value of the first parameter with the given name in a query.
pub fn find_parameter(query: &[char], name: &str) -> (r: Option<String>)
    ensures
        crate::text::same_text(r, query_parameter(query@, name@)),
{
    let pairs = split(query, '&');
    let ghost models = views(pairs@);
    let mut i: usize = 0;
    while i < pairs.len()
        invariant
            i <= pairs@.len(),
            models == views(pairs@),
            models == pieces(query@, '&'),
            parameter_in(models, name@, i as int) == parameter_in(models, name@, 0),
        decreases pairs@.len() - i,
    {
        assert(models[i as int] == pairs@[i as int]@);
        if let Some((k, v)) = split_once(pairs[i], '=') {
            if is_text(k, name) {
                return Some(text_of(v));
            }
        }
        i = i + 1;
    }
    None
}

/// Application, resource and signature of a playback path.
pub fn parse_path_sign(path: &str) -> (r: (String, String, String))
    ensures
        (PathParts { app: r.0@, resource: r.1@, sign: r.2@ }) == path_parts(path@),
{
    let chars = chars_of(path);
    let p = trim_start_char(chars.as_slice(), '/');
    let (only, sign) = match split_once(p, '?') {
        Some((only, query)) => (
            only,
            match find_parameter(query, "sign") {
                Some(v) => v,
                None => String::new(),
            },
        ),
        None => (p, String::new()),
    };
    match split_once(only, '/') {
        Some((app, resource)) => (text_of(app), text_of(resource), sign),
        None => (text_of(only), String::new(), sign),
    }
}

/// How a stream is played over WebSocket.
#[derive(Debug, Clone, Copy, PartialEq, Eq, Structural)]
pub enum WsKind {
    Flv,
    Ts,
    Fmp4,
}

/// What a resource ends with that is played in a given way.
pub open spec fn suffix_of(kind: WsKind) -> Seq<char> {
    match kind {
        WsKind::Flv => ".flv"@,
        WsKind::Ts => ".live.ts"@,
        WsKind::Fmp4 => ".live.mp4"@,
    }
}

/// The stream that a resource names: what precedes the suffix, or `stream`
/// when the suffix is absent.
pub open spec fn stream_of(resource: Seq<char>, suffix: Seq<char>) -> Seq<char> {
    match without_suffix(resource, suffix) {
        Some(name) => name,
        None => "stream"@,
    }
}

/// The stream that a resource names.
pub fn stream_name(resource: &str, suffix: &str) -> (r: String)
    ensures
        r@ == stream_of(resource@, suffix@),
{
    let chars = chars_of(resource);
    match strip_suffix(chars.as_slice(), suffix) {
        Some(name) => text_of(name),
        None => copy_text("stream"),
    }
}

/// What a client asks to play: application, stream and signature.
pub fn play_target(kind: WsKind, path: &str) -> (r: (String, String, String))
    ensures
        ({
            let parts = path_parts(path@);
            &&& r.0@ == parts.app
            &&& r.1@ == stream_of(parts.resource, suffix_of(kind))
            &&& r.2@ == parts.sign
        }),
{
    let (app, resource, sign) = parse_path_sign(path);
    let stream = match kind {
        WsKind::Flv => stream_name(resource.as_str(), ".flv"),
        WsKind::Ts => stream_name(resource.as_str(), ".live.ts"),
        WsKind::Fmp4 => stream_name(resource.as_str(), ".live.mp4"),
    };
    (app, stream, sign)
}

/// What refuses a client: the hook and the signature check answer
/// `unauthorized`, a missing source `stream not found`.
pub open spec fn refusal_frame(hook_allowed: bool, sign_valid: bool, source_found: bool) -> Option<
    WsModel,
> {
    if !hook_allowed || !sign_valid {
        Some(close_frame(3000, "unauthorized"@))
    } else if !source_found {
        Some(close_frame(3004, "stream not found"@))
    } else {
        None
    }
}

/// The bytes that refuse a client; `None` when it may play. A check that was
/// not made, because one before it failed, counts as failed.
pub fn refuse(hook_allowed: bool, sign_valid: bool, source_found: bool) -> (r: Option<Vec<u8>>)
    ensures
        match (r, refusal_frame(hook_allowed, sign_valid, source_found)) {
            (Some(a), Some(b)) => a@ == encoded(b),
            (None, None) => true,
            _ => false,
        },
{
    if !hook_allowed || !sign_valid {
        Some(WsFrame::close(3000, "unauthorized").encode_server())
    } else if !source_found {
        Some(WsFrame::close(3004, "stream not found").encode_server())
    } else {
        None
    }
}

/// What happens while a stream is played.
pub enum WsEvent {
    /// The source published a frame; `output` is what the muxer made of it.
    Media { is_config: bool, output: Vec<u8> },
    /// Frames were lost because the client is slow.
    Lagged,
    /// The source is gone.
    SourceClosed,
    /// The client sent a frame.
    Client { opcode: u8 },
    /// The client is gone.
    ClientGone,
}

/// What is done about it: what is sent, and whether playback ends then.
pub struct WsAction {
    pub send: Option<Vec<u8>>,
    pub stop: bool,
}

/// What is sent for an event, and whether playback ends.
pub open spec fn action_for(kind: WsKind, event: WsEvent) -> (Option<WsModel>, bool) {
    match event {
        WsEvent::Media { is_config, output } => if (kind == WsKind::Flv && is_config) || (kind
            != WsKind::Flv && output@.len() == 0) {
            (None, false)
        } else {
            (Some(binary_frame(output@)), false)
        },
        WsEvent::Lagged => (None, false),
        WsEvent::SourceClosed => (Some(close_frame(1001, "source gone"@)), true),
        WsEvent::Client { opcode } => if opcode == 8 {
            (Some(close_frame(1000, "bye"@)), true)
        } else if opcode == 9 {
            (Some(pong_frame()), false)
        } else {
            (None, false)
        },
        WsEvent::ClientGone => (None, true),
    }
}

/// What to do about an event.
pub fn step(kind: WsKind, event: WsEvent) -> (r: WsAction)
    ensures
        ({
            let (frame, stop) = action_for(kind, event);
            &&& r.stop == stop
            &&& match (r.send, frame) {
                (Some(a), Some(b)) => a@ == encoded(b),
                (None, None) => true,
                _ => false,
            }
        }),
{
    match event {
        WsEvent::Media { is_config, output } => if (kind == WsKind::Flv && is_config) || (kind
            != WsKind::Flv && output.len() == 0) {
            WsAction { send: None, stop: false }
        } else {
            WsAction { send: Some(WsFrame::binary(output).encode_server()), stop: false }
        },
        WsEvent::Lagged => WsAction { send: None, stop: false },
        WsEvent::SourceClosed => WsAction {
            send: Some(WsFrame::close(1001, "source gone").encode_server()),
            stop: true,
        },
        WsEvent::Client { opcode } => if opcode == 0x8 {
            WsAction { send: Some(WsFrame::close(1000, "bye").encode_server()), stop: true }
        } else if opcode == 0x9 {
            WsAction { send: Some(WsFrame::pong().encode_server()), stop: false }
        } else {
            WsAction { send: None, stop: false }
        },
        WsEvent::ClientGone => WsAction { send: None, stop: true },
    }
}

/// The frames that carry the outputs among the first `n` that are not empty.
pub open spec fn carried(outputs: Seq<Seq<u8>>, n: int) -> Seq<Seq<u8>>
    decreases n,
{
    if n <= 0 {
        Seq::empty()
    } else if outputs[n - 1].len() > 0 {
        carried(outputs, n - 1).push(encoded(binary_frame(outputs[n - 1])))
    } else {
        carried(outputs, n - 1)
    }
}

/// The frames that carry what a muxer made before the live frames; what is
/// empty is not sent.
pub fn carry(outputs: &Vec<Vec<u8>>) -> (r: Vec<Vec<u8>>)
    ensures
        views(r@) == carried(views(outputs@), outputs@.len() as int),
{
    let ghost models = views(outputs@);
    let mut out: Vec<Vec<u8>> = Vec::new();
    let mut i: usize = 0;
    assert(views(out@) =~= Seq::empty());
    while i < outputs.len()
        invariant
            i <= outputs@.len(),
            models == views(outputs@),
            views(out@) == carried(models, i as int),
        decreases outputs@.len() - i,
    {
        assert(models[i as int] == outputs@[i as int]@);
        if outputs[i].len() > 0 {
            let ghost before = views(out@);
            let frame = WsFrame::binary(to_vec(outputs[i].as_slice())).encode_server();
            let ghost bytes = frame@;
            out.push(frame);
            assert(views(out@) =~= before.push(bytes));
        }
        i = i + 1;
    }
    out
}

/// A frame that was published before playback started: whether it is a
/// configuration, and what the codec layer made of it.
pub struct CachedFrame {
    pub frame: MediaFrame,
    pub is_config: bool,
    pub payload: Option<Vec<u8>>,
}

/// What becomes of a live stream with the first `n` cached frames: what waits
/// then, and the segments that are complete; nothing when one of them cannot
/// be written.
pub open spec fn replayed(m: Fmp4Model, gop: Seq<CachedFrame>, n: int) -> Option<
    (Fmp4Model, Seq<Seq<u8>>),
>
    decreases n,
{
    if n <= 0 {
        Some((m, Seq::empty()))
    } else {
        match replayed(m, gop, n - 1) {
            None => None,
            Some((before, segments)) => {
                let c = gop[n - 1];
                if c.is_config {
                    Some((before, segments))
                } else {
                    let next = fmp4_pushed(before, c.frame@, opt_bytes(c.payload));
                    if completes_segment(c.frame@) {
                        flushed_behind(next, segments)
                    } else {
                        Some((next, segments))
                    }
                }
            },
        }
    }
}

/// Segments with one more of what waits, if anything does; nothing when it
/// cannot be written.
pub open spec fn flushed_behind(m: Fmp4Model, segments: Seq<Seq<u8>>) -> Option<
    (Fmp4Model, Seq<Seq<u8>>),
> {
    if !flushable(m) {
        None
    } else if samples_wait(m) {
        Some((after_flush(m), segments.push(flushed_segment(m).data)))
    } else {
        Some((m, segments))
    }
}

/// Live fragmented MP4: an initialization segment, then a segment up to each
/// key frame.
pub struct LiveFmp4 {
    muxer: Fmp4Muxer,
}

impl View for LiveFmp4 {
    type V = Fmp4Model;

    closed spec fn view(&self) -> Fmp4Model {
        self.muxer@
    }
}

/// A live stream after a frame; configurations are left out.
pub open spec fn live_taken(
    m: Fmp4Model,
    frame: FrameModel,
    is_config: bool,
    payload: Option<Seq<u8>>,
) -> Fmp4Model {
    if is_config {
        m
    } else {
        fmp4_pushed(m, frame, payload)
    }
}

/// Whether a frame completes a segment: a video key frame does.
pub open spec fn completes_segment(frame: FrameModel) -> bool {
    frame.frame_type == FrameType::Video && frame.key_frame
}

impl LiveFmp4 {
    pub fn new() -> (r: Self)
        ensures
            r@ == empty_fmp4(90000),
    {
        Self { muxer: Fmp4Muxer::new(90000) }
    }

    /// Takes a decoder configuration.
    pub fn push_config(&mut self, frame: &MediaFrame, payload: Option<Vec<u8>>)
        ensures
            final(self)@ == fmp4_pushed(old(self)@, frame@, opt_bytes(payload)),
    {
        self.muxer.push_frame(frame, payload);
    }

    /// The initialization segment.
    pub fn init(&self) -> (r: Vec<u8>)
        ensures
            r@ == init_bytes(self@),
    {
        self.muxer.init_segment().data
    }

    /// Takes a frame; configurations are left out. Says whether a segment is
    /// complete with it.
    pub fn push(&mut self, frame: &MediaFrame, is_config: bool, payload: Option<Vec<u8>>) -> (r:
        bool)
        ensures
            final(self)@ == live_taken(old(self)@, frame@, is_config, opt_bytes(payload)),
            is_config ==> !r && final(self)@ == old(self)@,
            !is_config ==> r == completes_segment(frame@) && final(self)@ == fmp4_pushed(
                old(self)@,
                frame@,
                opt_bytes(payload),
            ),
    {
        if is_config {
            return false;
        }
        self.muxer.push_frame(frame, payload);
        frame.frame_type == FrameType::Video && frame.key_frame
    }

    /// Whether what waits can be made a segment.
    pub fn can_flush(&self) -> (r: bool)
        ensures
            r == flushable(self@),
    {
        self.muxer.can_flush()
    }

    /// Appends the segment of what waits, if anything does; says whether it
    /// can be written.
    fn flush_behind(&mut self, segments: &mut Vec<Vec<u8>>) -> (r: bool)
        ensures
            match flushed_behind(old(self)@, views(old(segments)@)) {
                Some((next, all)) => r && final(self)@ == next && views(final(segments)@) == all,
                None => !r,
            },
    {
        if !self.can_flush() {
            return false;
        }
        let ghost before = views(segments@);
        if let Some(data) = self.flush() {
            let ghost bytes = data@;
            segments.push(data);
            assert(views(segments@) =~= before.push(bytes));
        }
        true
    }

    /// Takes the latest group of pictures: the segments that it makes, the
    /// last one of what waits at its end. `None` when one of them cannot be
    /// written.
    pub fn replay(&mut self, gop: &Vec<CachedFrame>) -> (r: Option<Vec<Vec<u8>>>)
        ensures
            match replayed(old(self)@, gop@, gop@.len() as int) {
                None => r is None,
                Some((waiting, complete)) => match flushed_behind(waiting, complete) {
                    None => r is None,
                    Some((next, all)) => r is Some && views(r->0@) == all && final(self)@ == next,
                },
            },
    {
        let ghost start = self@;
        let mut segments: Vec<Vec<u8>> = Vec::new();
        let mut i: usize = 0;
        assert(views(segments@) =~= Seq::empty());
        while i < gop.len()
            invariant
                i <= gop@.len(),
                start == old(self)@,
                replayed(start, gop@, i as int) == Some((self@, views(segments@))),
            decreases gop@.len() - i,
        {
            let c = &gop[i];
            let payload = match &c.payload {
                Some(p) => Some(to_vec(p.as_slice())),
                None => None,
            };
            assert(opt_bytes(payload) == opt_bytes(c.payload));
            let due: bool = self.push(&c.frame, c.is_config, payload);
            let ok: bool = !due || self.flush_behind(&mut segments);
            if !ok {
                proof {
                    lemma_replay_stops(start, gop@, i + 1, gop@.len() as int);
                }
                return None;
            }
            i = i + 1;
        }
        if self.flush_behind(&mut segments) {
            Some(segments)
        } else {
            None
        }
    }

    /// The segment of what waits; `None` when nothing waits.
    pub fn flush(&mut self) -> (r: Option<Vec<u8>>)
        requires
            flushable(old(self)@),
        ensures
            !samples_wait(old(self)@) ==> r is None && final(self)@ == old(self)@,
            samples_wait(old(self)@) ==> r is Some && r->0@ == flushed_segment(old(self)@).data
                && final(self)@ == after_flush(old(self)@),
    {
        match self.muxer.flush_segment() {
            Some(s) => Some(s.data),
            None => None,
        }
    }
}

proof fn lemma_replay_stops(m: Fmp4Model, gop: Seq<CachedFrame>, a: int, b: int)
    requires
        0 <= a <= b,
        replayed(m, gop, a) is None,
    ensures
        replayed(m, gop, b) is None,
    decreases b,
{
    if a < b {
        lemma_replay_stops(m, gop, a, b - 1);
    }
}

} // verus!
