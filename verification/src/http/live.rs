//! Live streams over HTTP: names, access, playlists and manifests.
use vstd::prelude::*;
use vstd::string::*;
use crate::bytes::views;
use crate::http::request::route_of;
use crate::http::ws_session::WsKind;
use crate::http::responses::{CachePolicy, Failure, content_response, text_response};
use crate::media::{CodecId, TrackInfo};
use crate::mp4::dash::{
    DashRepresentation, ManifestTemplates, RepresentationModel, build_mpd, mpd_text,
};
use crate::text::{
    chars_of, contains_text, copy_text, decimal, ends_with, finishes_with, holds_text,
    parse_number, parsed_number, pieces, push_decimal, same_text, split, split_once, strip_prefix,
    strip_suffix, text_of, trim_back, trim_end_char, trim_front, trim_start_char, without_prefix,
    without_suffix,
};

verus! {

// ── access ──────────────────────────────────────────────────────────────

/// What refuses a request to play: the hook and the signature check answer
/// that the client may not, a missing source that there is no such stream.
pub open spec fn play_failure(
    hook_allowed: bool,
    sign_valid: bool,
    source_found: bool,
) -> Option<Failure> {
    if !hook_allowed || !sign_valid {
        Some(Failure::Unauthorized)
    } else if !source_found {
        Some(Failure::NotFound)
    } else {
        None
    }
}

/// What refuses a request to play; `None` when it may. A check that was not
/// made, because one before it failed, counts as failed.
pub fn refuse_play(hook_allowed: bool, sign_valid: bool, source_found: bool) -> (r: Option<Failure>)
    ensures
        r == play_failure(hook_allowed, sign_valid, source_found),
{
    if !hook_allowed || !sign_valid {
        Some(Failure::Unauthorized)
    } else if !source_found {
        Some(Failure::NotFound)
    } else {
        None
    }
}

/// A refused client learns nothing of the source: the answer is the same
/// whether there is one or not.
pub proof fn law_refusal_hides_source(hook_allowed: bool, sign_valid: bool)
    requires
        !hook_allowed || !sign_valid,
    ensures
        play_failure(hook_allowed, sign_valid, true) == play_failure(
            hook_allowed,
            sign_valid,
            false,
        ),
        play_failure(hook_allowed, sign_valid, true) == Some(Failure::Unauthorized),
{
}

/// Whether something is sent for a live frame: FLV leaves configurations out,
/// the others whatever the muxer made nothing of.
pub fn sends_frame(kind: WsKind, is_config: bool, output: usize) -> (r: bool)
    ensures
        r == match kind {
            WsKind::Flv => !is_config,
            _ => output > 0,
        },
{
    match kind {
        WsKind::Flv => !is_config,
        _ => output > 0,
    }
}

// ── HLS ─────────────────────────────────────────────────────────────────

/// The stream of a playlist: `stream/hls.m3u8` or `stream.m3u8`.
pub open spec fn playlist_stream(resource: Seq<char>) -> Seq<char> {
    match without_suffix(resource, "/hls.m3u8"@) {
        Some(s) => s,
        None => match without_suffix(resource, ".m3u8"@) {
            Some(s) => s,
            None => resource,
        },
    }
}

/// The stream of a playlist.
pub fn hls_playlist_stream(resource: &str) -> (r: String)
    ensures
        r@ == playlist_stream(resource@),
{
    let chars = chars_of(resource);
    match strip_suffix(chars.as_slice(), "/hls.m3u8") {
        Some(s) => text_of(s),
        None => match strip_suffix(chars.as_slice(), ".m3u8") {
            Some(s) => text_of(s),
            None => text_of(chars.as_slice()),
        },
    }
}

/// A segment of a playlist: its index, and its duration in seconds as text.
pub struct PlaylistSegment {
    pub index: u32,
    pub duration: String,
}

/// The playlist lines of the first `n` segments.
pub open spec fn segment_lines(
    app: Seq<char>,
    stream: Seq<char>,
    segments: Seq<PlaylistSegment>,
    n: int,
) -> Seq<char>
    decreases n,
{
    if n <= 0 {
        Seq::empty()
    } else {
        segment_lines(app, stream, segments, n - 1) + "#EXTINF:"@ + segments[n - 1].duration@
            + ",\n/"@ + app + "/"@ + stream + "/"@ + decimal(segments[n - 1].index as int)
            + ".ts\n"@
    }
}

/// The playlist of the segments of a stream; it starts at the index of the
/// first one.
pub open spec fn playlist_text(
    app: Seq<char>,
    stream: Seq<char>,
    segments: Seq<PlaylistSegment>,
) -> Seq<char> {
    let first = if segments.len() > 0 {
        segments[0].index as int
    } else {
        0
    };
    "#EXTM3U\n#EXT-X-VERSION:3\n#EXT-X-TARGETDURATION:4\n#EXT-X-MEDIA-SEQUENCE:"@ + decimal(first)
        + "\n"@ + segment_lines(app, stream, segments, segments.len() as int)
}

fn put_segment(out: &mut String, app: &str, stream: &str, segment: &PlaylistSegment)
    ensures
        final(out)@ == old(out)@ + "#EXTINF:"@ + segment.duration@ + ",\n/"@ + app@ + "/"@ + stream@
            + "/"@ + decimal(segment.index as int) + ".ts\n"@,
{
    out.append("#EXTINF:");
    out.append(segment.duration.as_str());
    out.append(",\n/");
    out.append(app);
    out.append("/");
    out.append(stream);
    out.append("/");
    push_decimal(out, segment.index as u64);
    out.append(".ts\n");
}

proof fn lemma_concat_nine(
    h: Seq<char>,
    l: Seq<char>,
    a: Seq<char>,
    b: Seq<char>,
    c: Seq<char>,
    d: Seq<char>,
    e: Seq<char>,
    f: Seq<char>,
    g: Seq<char>,
    i: Seq<char>,
    j: Seq<char>,
)
    ensures
        h + l + a + b + c + d + e + f + g + i + j == h + (l + a + b + c + d + e + f + g + i + j),
{
    assert(h + l + a + b + c + d + e + f + g + i + j =~= h + (l + a + b + c + d + e + f + g + i
        + j));
}

/// The playlist of the segments of a stream.
pub fn hls_playlist(app: &str, stream: &str, segments: &Vec<PlaylistSegment>) -> (r: String)
    ensures
        r@ == playlist_text(app@, stream@, segments@),
{
    let first: u32 = if segments.len() > 0 {
        segments[0].index
    } else {
        0
    };
    let mut out = copy_text(
        "#EXTM3U\n#EXT-X-VERSION:3\n#EXT-X-TARGETDURATION:4\n#EXT-X-MEDIA-SEQUENCE:",
    );
    push_decimal(&mut out, first as u64);
    out.append("\n");
    let ghost head = out@;
    assert(out@ =~= head + segment_lines(app@, stream@, segments@, 0));
    let mut i: usize = 0;
    while i < segments.len()
        invariant
            i <= segments@.len(),
            out@ == head + segment_lines(app@, stream@, segments@, i as int),
        decreases segments@.len() - i,
    {
        put_segment(&mut out, app, stream, &segments[i]);
        proof {
            let s = segments@[i as int];
            lemma_concat_nine(
                head,
                segment_lines(app@, stream@, segments@, i as int),
                "#EXTINF:"@,
                s.duration@,
                ",\n/"@,
                app@,
                "/"@,
                stream@,
                "/"@,
                decimal(s.index as int),
                ".ts\n"@,
            );
        }
        i = i + 1;
    }
    out
}

/// The response with the playlist of the segments of a stream.
pub fn hls_playlist_response(app: &str, stream: &str, segments: &Vec<PlaylistSegment>) -> (r:
    String)
    ensures
        r@ == text_response(
            "application/vnd.apple.mpegurl"@,
            playlist_text(app@, stream@, segments@),
            false,
            CachePolicy::NoCache,
        ),
{
    let body = hls_playlist(app, stream, segments);
    content_response("application/vnd.apple.mpegurl", body.as_str(), false, CachePolicy::NoCache)
}

/// A request for a segment: the stream, and the index when there is one.
pub struct SegmentRequest {
    pub stream: String,
    pub index: Option<u64>,
}

/// Whether an optional number is the given one.
pub open spec fn same_number(r: Option<u64>, m: Option<int>) -> bool {
    match (r, m) {
        (Some(a), Some(b)) => a == b,
        (None, None) => true,
        _ => false,
    }
}

/// The index of a TS segment; the largest number is none.
pub open spec fn ts_index(file: Seq<char>) -> Option<int> {
    match without_suffix(file, ".ts"@) {
        Some(name) => parsed_number(name, u32::MAX - 1),
        None => None,
    }
}

/// The request for a TS segment at `stream/index.ts`; `None` when the path has
/// one part.
pub fn hls_segment_request(resource: &str) -> (r: Option<SegmentRequest>)
    ensures
        ({
            let parts = pieces(resource@, '/');
            if parts.len() < 2 {
                r is None
            } else {
                r is Some && r->0.stream@ == parts[0] && same_number(r->0.index, ts_index(parts[1]))
            }
        }),
{
    let chars = chars_of(resource);
    let parts = split(chars.as_slice(), '/');
    let ghost models = views(parts@);
    if parts.len() < 2 {
        return None;
    }
    assert(models[0] == parts@[0]@ && models[1] == parts@[1]@);
    let index: Option<u64> = match strip_suffix(parts[1], ".ts") {
        Some(name) => parse_number(name, (u32::MAX - 1) as u64),
        None => None,
    };
    Some(SegmentRequest { stream: text_of(parts[0]), index })
}

/// The place of the first segment with the given index.
pub open spec fn index_place(indices: Seq<u32>, index: u32, i: int) -> Option<int>
    decreases indices.len() - i,
{
    if i < 0 || i >= indices.len() {
        None
    } else if indices[i] == index {
        Some(i)
    } else {
        index_place(indices, index, i + 1)
    }
}

/// The place of the first segment with the given index.
pub fn find_index(indices: &Vec<u32>, index: u32) -> (r: Option<usize>)
    ensures
        match (r, index_place(indices@, index, 0)) {
            (Some(a), Some(b)) => a == b && a < indices@.len() && indices@[a as int] == index,
            (None, None) => true,
            _ => false,
        },
{
    let mut i: usize = 0;
    while i < indices.len()
        invariant
            i <= indices@.len(),
            index_place(indices@, index, i as int) == index_place(indices@, index, 0),
        decreases indices@.len() - i,
    {
        if indices[i] == index {
            return Some(i);
        }
        i = i + 1;
    }
    None
}

// ── CMAF ────────────────────────────────────────────────────────────────

/// The stream of a CMAF playlist: `stream/hls.cmav.m3u8` or
/// `stream.cmav.m3u8`.
pub open spec fn cmaf_stream(resource: Seq<char>) -> Seq<char> {
    match without_suffix(resource, ".cmav.m3u8"@) {
        Some(s) => match without_suffix(s, "/hls"@) {
            Some(t) => t,
            None => s,
        },
        None => "stream"@,
    }
}

/// The stream of a CMAF playlist.
pub fn cmaf_playlist_stream(resource: &str) -> (r: String)
    ensures
        r@ == cmaf_stream(resource@),
{
    let chars = chars_of(resource);
    match strip_suffix(chars.as_slice(), ".cmav.m3u8") {
        Some(s) => match strip_suffix(s, "/hls") {
            Some(t) => text_of(t),
            None => text_of(s),
        },
        None => copy_text("stream"),
    }
}

/// The stream and the segment that a CMAF segment path names:
/// `stream/seg-index.m4s`. The index counts by its lower 32 bits, and what is
/// no number stands for the largest one.
pub open spec fn cmaf_parts(resource: Seq<char>) -> Option<(Seq<char>, int)> {
    match without_suffix(resource, ".m4s"@) {
        Some(rest) => {
            let parts = pieces(rest, '/');
            if parts.len() < 2 {
                None
            } else {
                match without_prefix(parts[1], "seg-"@) {
                    Some(number) => match parsed_number(number, u64::MAX as int) {
                        Some(n) => Some((parts[0], n % 0x1_0000_0000)),
                        None => Some((parts[0], u32::MAX as int)),
                    },
                    None => None,
                }
            }
        },
        None => None,
    }
}

/// The stream and the index of a CMAF segment; `None` when the path names
/// none.
pub fn cmaf_segment_request(resource: &str) -> (r: Option<(String, u32)>)
    ensures
        match (r, cmaf_parts(resource@)) {
            (Some(a), Some(b)) => a.0@ == b.0 && a.1 == b.1,
            (None, None) => true,
            _ => false,
        },
{
    let chars = chars_of(resource);
    let rest = match strip_suffix(chars.as_slice(), ".m4s") {
        Some(s) => s,
        None => {
            return None;
        },
    };
    let parts = split(rest, '/');
    let ghost models = views(parts@);
    if parts.len() < 2 {
        return None;
    }
    assert(models[0] == parts@[0]@ && models[1] == parts@[1]@);
    match strip_prefix(parts[1], "seg-") {
        Some(number) => {
            let index: u32 = match parse_number(number, u64::MAX) {
                Some(n) => (n % 0x1_0000_0000) as u32,
                None => u32::MAX,
            };
            Some((text_of(parts[0]), index))
        },
        None => None,
    }
}

/// The stream whose CMAF initialization segment a path may ask for.
pub open spec fn cmaf_init_of(path: Seq<char>) -> Option<Seq<char>> {
    let route = route_of(path);
    if finishes_with(route, "init.mp4"@) && !holds_text(route, "-v"@) && !holds_text(
        route,
        "-a"@,
    ) {
        let parts = pieces(trim_front(route, '/'), '/');
        if parts.len() > 1 {
            Some(parts[1])
        } else {
            Some("stream"@)
        }
    } else {
        None
    }
}

/// The stream whose CMAF initialization segment a path may ask for.
pub fn cmaf_init_stream(path: &str) -> (r: Option<String>)
    ensures
        same_text(r, cmaf_init_of(path@)),
{
    let chars = chars_of(path);
    let route = match split_once(chars.as_slice(), '?') {
        Some((route, _)) => route,
        None => chars.as_slice(),
    };
    if ends_with(route, "init.mp4") && !contains_text(route, "-v") && !contains_text(route, "-a") {
        let parts = split(trim_start_char(route, '/'), '/');
        let ghost models = views(parts@);
        if parts.len() > 1 {
            assert(models[1] == parts@[1]@);
            Some(text_of(parts[1]))
        } else {
            Some(copy_text("stream"))
        }
    } else {
        None
    }
}

// ── DASH ────────────────────────────────────────────────────────────────

/// The stream of a DASH initialization segment: what precedes `init.mp4`,
/// without slashes and the name of the representation at its end.
pub open spec fn dash_init_of(resource: Seq<char>) -> Seq<char> {
    let rest = trim_back(
        match without_suffix(resource, "init.mp4"@) {
            Some(s) => s,
            None => resource,
        },
        '/',
    );
    match without_suffix(rest, "-v0"@) {
        Some(s) => s,
        None => match without_suffix(rest, "-a0"@) {
            Some(s) => s,
            None => rest,
        },
    }
}

/// The stream of a DASH initialization segment.
pub fn dash_init_stream(resource: &str) -> (r: String)
    ensures
        r@ == dash_init_of(resource@),
{
    let chars = chars_of(resource);
    let named = match strip_suffix(chars.as_slice(), "init.mp4") {
        Some(s) => s,
        None => chars.as_slice(),
    };
    let rest = trim_end_char(named, '/');
    match strip_suffix(rest, "-v0") {
        Some(s) => text_of(s),
        None => match strip_suffix(rest, "-a0") {
            Some(s) => text_of(s),
            None => text_of(rest),
        },
    }
}

/// The stream of a DASH segment, which precedes the first of at least two
/// hyphens.
pub open spec fn dash_segment_of(resource: Seq<char>) -> Option<Seq<char>> {
    let rest = match without_suffix(resource, ".m4s"@) {
        Some(s) => s,
        None => resource,
    };
    let parts = pieces(rest, '-');
    if parts.len() < 3 {
        None
    } else {
        Some(parts[0])
    }
}

/// The stream of a DASH segment; `None` when the path names none.
pub fn dash_segment_stream(resource: &str) -> (r: Option<String>)
    ensures
        same_text(r, dash_segment_of(resource@)),
{
    let chars = chars_of(resource);
    let rest = match strip_suffix(chars.as_slice(), ".m4s") {
        Some(s) => s,
        None => chars.as_slice(),
    };
    let parts = split(rest, '-');
    let ghost models = views(parts@);
    if parts.len() < 3 {
        return None;
    }
    assert(models[0] == parts@[0]@);
    Some(text_of(parts[0]))
}

/// The codec string of a live video track.
pub open spec fn live_video_codec(codec: CodecId) -> Seq<char> {
    match codec {
        CodecId::H265 => "hev1.1.6.L93.B0"@,
        CodecId::VP8 => "vp8"@,
        CodecId::VP9 => "vp09.00.10.08"@,
        CodecId::AV1 => "av01.0.04M.08"@,
        _ => "avc1.64001f"@,
    }
}

/// The codec string of a live audio track.
pub open spec fn live_audio_codec(codec: CodecId) -> Seq<char> {
    match codec {
        CodecId::Opus => "opus"@,
        _ => "mp4a.40.2"@,
    }
}

/// The representation of a live track.
pub open spec fn live_representation(track: TrackInfo) -> RepresentationModel {
    match track {
        TrackInfo::Video(v) => RepresentationModel {
            id: "v0"@,
            mime_type: "video/mp4"@,
            codecs: live_video_codec(v.codec),
            width: v.width,
            height: v.height,
            segment_duration_secs: 4,
            timescale: 90000,
            bandwidth: 2000000,
        },
        TrackInfo::Audio(a) => RepresentationModel {
            id: "a0"@,
            mime_type: "audio/mp4"@,
            codecs: live_audio_codec(a.codec),
            width: 0,
            height: 0,
            segment_duration_secs: 4,
            timescale: a.sample_rate,
            bandwidth: 128000,
        },
    }
}

/// The representations of live tracks.
pub open spec fn live_representations(tracks: Seq<TrackInfo>) -> Seq<RepresentationModel> {
    Seq::new(tracks.len(), |i: int| live_representation(tracks[i]))
}

/// Whether the segments of every audio track last less than 2^32 ticks.
pub open spec fn rates_fit(tracks: Seq<TrackInfo>) -> bool {
    forall|i: int|
        0 <= i < tracks.len() ==> match #[trigger] tracks[i] {
            TrackInfo::Audio(a) => a.sample_rate * 4 <= u32::MAX,
            TrackInfo::Video(_) => true,
        }
}

/// The manifest of a live stream.
pub open spec fn live_manifest(
    app: Seq<char>,
    stream: Seq<char>,
    tracks: Seq<TrackInfo>,
) -> Seq<char> {
    mpd_text(
        live_representations(tracks),
        ManifestTemplates {
            init_template: "/"@ + app + "/"@ + stream + "/init-$RepresentationID$"@,
            media_template: "/"@ + app + "/"@ + stream + "/seg-$RepresentationID$-$"@,
            start_number: 1,
        },
    )
}

fn representation_for(track: &TrackInfo) -> (r: DashRepresentation)
    ensures
        r@ == live_representation(*track),
{
    match track {
        TrackInfo::Video(v) => {
            let codecs = match v.codec {
                CodecId::H265 => "hev1.1.6.L93.B0",
                CodecId::VP8 => "vp8",
                CodecId::VP9 => "vp09.00.10.08",
                CodecId::AV1 => "av01.0.04M.08",
                _ => "avc1.64001f",
            };
            DashRepresentation {
                id: copy_text("v0"),
                mime_type: copy_text("video/mp4"),
                codecs: copy_text(codecs),
                width: v.width,
                height: v.height,
                segment_duration_secs: 4,
                timescale: 90000,
                bandwidth: 2000000,
            }
        },
        TrackInfo::Audio(a) => {
            let codecs = match a.codec {
                CodecId::Opus => "opus",
                _ => "mp4a.40.2",
            };
            DashRepresentation {
                id: copy_text("a0"),
                mime_type: copy_text("audio/mp4"),
                codecs: copy_text(codecs),
                width: 0,
                height: 0,
                segment_duration_secs: 4,
                timescale: a.sample_rate,
                bandwidth: 128000,
            }
        },
    }
}

/// Whether the segments of every audio track last less than 2^32 ticks.
pub fn check_rates(tracks: &[TrackInfo]) -> (r: bool)
    ensures
        r == rates_fit(tracks@),
{
    let mut i: usize = 0;
    while i < tracks.len()
        invariant
            i <= tracks@.len(),
            forall|j: int|
                0 <= j < i ==> match #[trigger] tracks@[j] {
                    TrackInfo::Audio(a) => a.sample_rate * 4 <= u32::MAX,
                    TrackInfo::Video(_) => true,
                },
        decreases tracks@.len() - i,
    {
        if let TrackInfo::Audio(a) = &tracks[i] {
            if a.sample_rate > u32::MAX / 4 {
                assert(tracks@[i as int] is Audio);
                return false;
            }
        }
        i = i + 1;
    }
    true
}

/// The manifest of a live stream.
pub fn dash_manifest(app: &str, stream: &str, tracks: &[TrackInfo]) -> (r: String)
    requires
        rates_fit(tracks@),
    ensures
        r@ == live_manifest(app@, stream@, tracks@),
{
    let mut reprs: Vec<DashRepresentation> = Vec::new();
    let mut i: usize = 0;
    while i < tracks.len()
        invariant
            i <= tracks@.len(),
            views(reprs@) =~= live_representations(tracks@).take(i as int),
        decreases tracks@.len() - i,
    {
        let ghost before = views(reprs@);
        let repr = representation_for(&tracks[i]);
        let ghost model = repr@;
        reprs.push(repr);
        proof {
            assert(views(reprs@) =~= before.push(model));
            assert(live_representations(tracks@).take(i + 1) =~= live_representations(
                tracks@,
            ).take(i as int).push(model));
        }
        i = i + 1;
    }
    assert(views(reprs@) =~= live_representations(tracks@));
    let mut init = copy_text("/");
    init.append(app);
    init.append("/");
    init.append(stream);
    init.append("/init-$RepresentationID$");
    let mut media = copy_text("/");
    media.append(app);
    media.append("/");
    media.append(stream);
    media.append("/seg-$RepresentationID$-$");
    proof {
        assert forall|k: int| 0 <= k < reprs@.len() implies (#[trigger] views(
            reprs@,
        )[k]).segment_duration_secs == 4 && views(reprs@)[k].timescale * 4 <= u32::MAX by {
            assert(views(reprs@)[k] == live_representation(tracks@[k]));
        }
    }
    build_mpd(reprs.as_slice(), init.as_str(), media.as_str(), 1)
}

/// The response with the manifest of a live stream.
pub fn dash_manifest_response(app: &str, stream: &str, tracks: &[TrackInfo]) -> (r: String)
    requires
        rates_fit(tracks@),
    ensures
        r@ == text_response(
            "application/dash+xml"@,
            live_manifest(app@, stream@, tracks@),
            true,
            CachePolicy::NoCache,
        ),
{
    let body = dash_manifest(app, stream, tracks);
    content_response("application/dash+xml", body.as_str(), true, CachePolicy::NoCache)
}

} // verus!
