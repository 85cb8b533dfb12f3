//! Pulling media from other servers: what a response holds, which tracks a
//! stream has, and what to fetch of an HLS stream.
use vstd::prelude::*;
use vstd::utf8::{decode_utf8, valid_utf8};
use crate::bytes::{to_vec, views};
use crate::http::url::{HttpUrl, UrlModel, resolved};
use crate::media::{AudioInfo, CodecId, FrameModel, FrameType, MediaFrame, TrackInfo, VideoInfo};
use crate::text::{
    begins_with, chars_of, contains_text, copy_text, decode_text, ends_with, finishes_with,
    holds_text, is_text, lines, lines_of, lowered, pieces, same_text, split, starts_with,
    strip_prefix, text_eq, text_of, to_lower, trim, trim_back, trim_end_char, trim_front,
    trim_start_char, trimmed, without_prefix,
};

verus! {

/// The largest playlist that is read.
pub const MAX_PLAYLIST_SIZE: usize = 2097152;

/// The largest segment that is read.
pub const MAX_SEGMENT_SIZE: usize = 67108864;

/// How many segments are remembered.
pub const MAX_SEEN: usize = 4096;

// ── what a response holds ───────────────────────────────────────────────

/// What a response holds.
#[derive(Debug, Clone, Copy, PartialEq, Eq, Structural)]
pub enum PullKind {
    Hls,
    Flv,
    Ts,
    Unsupported,
}

/// What a response holds, by the suffix of its path or by its type.
pub open spec fn pull_kind_of(path: Seq<char>, content_type: Seq<char>) -> PullKind {
    let file = pieces(lowered(path), '?')[0];
    let kind = lowered(content_type);
    if finishes_with(file, ".m3u8"@) || holds_text(kind, "mpegurl"@) {
        PullKind::Hls
    } else if finishes_with(file, ".flv"@) || holds_text(kind, "flv"@) {
        PullKind::Flv
    } else if finishes_with(file, ".ts"@) || holds_text(kind, "mp2t"@) || holds_text(
        kind,
        "mpeg-ts"@,
    ) || holds_text(kind, "octet-stream"@) {
        PullKind::Ts
    } else {
        PullKind::Unsupported
    }
}

/// What a response holds.
pub fn pull_kind(path: &str, content_type: &str) -> (r: PullKind)
    ensures
        r == pull_kind_of(path@, content_type@),
{
    let pc = chars_of(path);
    let low_path = to_lower(pc.as_slice());
    let parts = split(low_path.as_slice(), '?');
    assert(views(parts@)[0] == parts@[0]@);
    let file = parts[0];
    let cc = chars_of(content_type);
    let low_type = to_lower(cc.as_slice());
    let kind = low_type.as_slice();
    if ends_with(file, ".m3u8") || contains_text(kind, "mpegurl") {
        PullKind::Hls
    } else if ends_with(file, ".flv") || contains_text(kind, "flv") {
        PullKind::Flv
    } else if ends_with(file, ".ts") || contains_text(kind, "mp2t") || contains_text(
        kind,
        "mpeg-ts",
    ) || contains_text(kind, "octet-stream") {
        PullKind::Ts
    } else {
        PullKind::Unsupported
    }
}

// ── tracks ──────────────────────────────────────────────────────────────

/// Whether a track carries frames of the given kind and codec.
pub open spec fn carries(track: TrackInfo, kind: FrameType, codec: CodecId) -> bool {
    match track {
        TrackInfo::Video(v) => kind == FrameType::Video && v.codec == codec,
        TrackInfo::Audio(a) => kind == FrameType::Audio && a.codec == codec,
    }
}

/// Whether any track carries frames of the given kind and codec.
pub open spec fn any_carries(tracks: Seq<TrackInfo>, kind: FrameType, codec: CodecId) -> bool {
    exists|i: int| 0 <= i < tracks.len() && carries(#[trigger] tracks[i], kind, codec)
}

/// The tracks of a stream after a frame: a track is added for a kind and codec
/// that no track carries.
pub open spec fn registered(tracks: Seq<TrackInfo>, f: FrameModel) -> Seq<TrackInfo> {
    if any_carries(tracks, f.frame_type, f.codec) {
        tracks
    } else {
        match f.frame_type {
            FrameType::Video => tracks.push(
                TrackInfo::Video(
                    VideoInfo {
                        codec: f.codec,
                        width: 0,
                        height: 0,
                        fps: 0,
                        key_frame: f.key_frame,
                    },
                ),
            ),
            FrameType::Audio => tracks.push(
                TrackInfo::Audio(
                    AudioInfo {
                        codec: f.codec,
                        sample_rate: 44100,
                        channels: 2,
                        bits_per_sample: 16,
                    },
                ),
            ),
            FrameType::Metadata => tracks,
        }
    }
}

/// Adds the track of a frame, unless there is one.
pub fn register_track(tracks: &mut Vec<TrackInfo>, frame: &MediaFrame)
    ensures
        final(tracks)@ == registered(old(tracks)@, frame@),
{
    let mut i: usize = 0;
    while i < tracks.len()
        invariant
            i <= tracks@.len(),
            tracks@ == old(tracks)@,
            forall|j: int|
                0 <= j < i ==> !carries(#[trigger] tracks@[j], frame.frame_type, frame.codec),
        decreases tracks@.len() - i,
    {
        let exists: bool = match &tracks[i] {
            TrackInfo::Video(v) => frame.frame_type == FrameType::Video && v.codec == frame.codec,
            TrackInfo::Audio(a) => frame.frame_type == FrameType::Audio && a.codec == frame.codec,
        };
        if exists {
            assert(carries(tracks@[i as int], frame.frame_type, frame.codec));
            return;
        }
        i = i + 1;
    }
    match frame.frame_type {
        FrameType::Video => {
            tracks.push(
                TrackInfo::Video(
                    VideoInfo {
                        codec: frame.codec,
                        width: 0,
                        height: 0,
                        fps: 0,
                        key_frame: frame.key_frame,
                    },
                ),
            );
        },
        FrameType::Audio => {
            tracks.push(
                TrackInfo::Audio(
                    AudioInfo {
                        codec: frame.codec,
                        sample_rate: 44100,
                        channels: 2,
                        bits_per_sample: 16,
                    },
                ),
            );
        },
        FrameType::Metadata => {},
    }
}

/// A frame adds a track at most once, and afterwards a media frame has one.
pub proof fn law_track_is_registered_once(tracks: Seq<TrackInfo>, f: FrameModel)
    ensures
        registered(registered(tracks, f), f) == registered(tracks, f),
        f.frame_type != FrameType::Metadata ==> any_carries(
            registered(tracks, f),
            f.frame_type,
            f.codec,
        ),
{
    if !any_carries(tracks, f.frame_type, f.codec) && f.frame_type != FrameType::Metadata {
        let after = registered(tracks, f);
        assert(carries(after[tracks.len() as int], f.frame_type, f.codec));
    }
}

// ── playlists ───────────────────────────────────────────────────────────

/// What a playlist holds.
pub struct PlaylistEntries {
    pub segments: Vec<String>,
    /// Another playlist with the segments.
    pub variant: Option<String>,
    pub end_list: bool,
    /// The initialization segment.
    pub init_map: Option<String>,
}

/// The model of what a playlist holds.
#[verifier::ext_equal]
pub struct PlaylistModel {
    pub segments: Seq<Seq<char>>,
    pub variant: Option<Seq<char>>,
    /// Whether the next address is another playlist.
    pub expect_variant: bool,
    pub init_map: Option<Seq<char>>,
    pub end_list: bool,
}

/// The address in one attribute of an initialization segment.
pub open spec fn attribute_uri(attribute: Seq<char>) -> Option<Seq<char>> {
    match without_prefix(trimmed(attribute), "URI="@) {
        Some(v) => Some(trim_back(trim_front(v, '"'), '"')),
        None => None,
    }
}

/// The first address among the attributes from `i` on.
pub open spec fn uri_among(attributes: Seq<Seq<char>>, i: int) -> Option<Seq<char>>
    decreases attributes.len() - i,
{
    if i < 0 || i >= attributes.len() {
        None
    } else if attribute_uri(attributes[i]) is Some {
        attribute_uri(attributes[i])
    } else {
        uri_among(attributes, i + 1)
    }
}

/// A playlist after one more line.
pub open spec fn playlist_line(m: PlaylistModel, raw: Seq<char>) -> PlaylistModel {
    let line = trimmed(raw);
    let ended = m.end_list || line == "#EXT-X-ENDLIST"@;
    if begins_with(line, "#EXT-X-STREAM-INF:"@) {
        PlaylistModel { expect_variant: true, end_list: ended, ..m }
    } else {
        match without_prefix(line, "#EXT-X-MAP:"@) {
            Some(attributes) => PlaylistModel {
                init_map: uri_among(pieces(attributes, ','), 0),
                end_list: ended,
                ..m
            },
            None => if line.len() == 0 || line[0] == '#' {
                PlaylistModel { end_list: ended, ..m }
            } else if m.expect_variant && m.variant is None {
                PlaylistModel {
                    variant: Some(line),
                    expect_variant: false,
                    end_list: ended,
                    ..m
                }
            } else {
                PlaylistModel { segments: m.segments.push(line), end_list: ended, ..m }
            },
        }
    }
}

/// What the first `n` lines of a playlist hold.
pub open spec fn playlist_lines(all: Seq<Seq<char>>, n: int) -> PlaylistModel
    decreases n,
{
    if n <= 0 {
        PlaylistModel {
            segments: Seq::empty(),
            variant: None,
            expect_variant: false,
            init_map: None,
            end_list: false,
        }
    } else {
        playlist_line(playlist_lines(all, n - 1), all[n - 1])
    }
}

/// What a playlist holds; nothing when it is no text.
pub open spec fn playlist_of(data: Seq<u8>) -> Option<PlaylistModel> {
    if valid_utf8(data) {
        let all = lines_of(decode_utf8(data));
        Some(playlist_lines(all, all.len() as int))
    } else {
        None
    }
}

/// Whether entries are those of a model.
pub open spec fn same_entries(e: PlaylistEntries, m: PlaylistModel) -> bool {
    &&& views(e.segments@) == m.segments
    &&& same_text(e.variant, m.variant)
    &&& same_text(e.init_map, m.init_map)
    &&& e.end_list == m.end_list
}

fn find_uri(attributes: &[char]) -> (r: Option<String>)
    ensures
        same_text(r, uri_among(pieces(attributes@, ','), 0)),
{
    let parts = split(attributes, ',');
    let ghost models = views(parts@);
    let mut i: usize = 0;
    while i < parts.len()
        invariant
            i <= parts@.len(),
            models == views(parts@),
            models == pieces(attributes@, ','),
            uri_among(models, i as int) == uri_among(models, 0),
        decreases parts@.len() - i,
    {
        assert(models[i as int] == parts@[i as int]@);
        if let Some(v) = strip_prefix(trim(parts[i]), "URI=") {
            return Some(text_of(trim_end_char(trim_start_char(v, '"'), '"')));
        }
        i = i + 1;
    }
    None
}

fn read_line(e: &mut PlaylistEntries, expect_variant: bool, raw: &[char]) -> (r: bool)
    ensures
        forall|m: PlaylistModel|
            same_entries(*old(e), m) && m.expect_variant == expect_variant ==> same_entries(
                *final(e),
                #[trigger] playlist_line(m, raw@),
            ) && playlist_line(m, raw@).expect_variant == r,
{
    let line = trim(raw);
    let ghost before = views(e.segments@);
    if is_text(line, "#EXT-X-ENDLIST") {
        e.end_list = true;
    }
    if starts_with(line, "#EXT-X-STREAM-INF:") {
        return true;
    }
    if let Some(attributes) = strip_prefix(line, "#EXT-X-MAP:") {
        e.init_map = find_uri(attributes);
        return expect_variant;
    }
    if line.len() == 0 || line[0] == '#' {
        return expect_variant;
    }
    if expect_variant && e.variant.is_none() {
        e.variant = Some(text_of(line));
        return false;
    }
    e.segments.push(text_of(line));
    assert(views(e.segments@) =~= before.push(line@));
    expect_variant
}

/// What a playlist holds; `None` when it is no text.
pub fn playlist_entries(data: &[u8]) -> (r: Option<PlaylistEntries>)
    ensures
        match (r, playlist_of(data@)) {
            (Some(a), Some(b)) => same_entries(a, b),
            (None, None) => true,
            _ => false,
        },
{
    let text = match decode_text(to_vec(data)) {
        Some(t) => t,
        None => {
            return None;
        },
    };
    let chars = chars_of(text.as_str());
    let all = lines(chars.as_slice());
    let ghost models = views(all@);
    let mut e = PlaylistEntries {
        segments: Vec::new(),
        variant: None,
        end_list: false,
        init_map: None,
    };
    let mut expect_variant: bool = false;
    let mut i: usize = 0;
    assert(views(e.segments@) =~= Seq::empty());
    while i < all.len()
        invariant
            i <= all@.len(),
            models == views(all@),
            same_entries(e, playlist_lines(models, i as int)),
            expect_variant == playlist_lines(models, i as int).expect_variant,
        decreases all@.len() - i,
    {
        assert(models[i as int] == all@[i as int]@);
        assert(playlist_lines(models, i + 1) == playlist_line(
            playlist_lines(models, i as int),
            models[i as int],
        ));
        expect_variant = read_line(&mut e, expect_variant, all[i]);
        i = i + 1;
    }
    Some(e)
}

// ── an HLS stream ───────────────────────────────────────────────────────

/// What to fetch next of an HLS stream.
pub struct HlsPlan {
    /// Another playlist, which is read instead.
    pub variant: Option<String>,
    /// An initialization segment that was not fetched yet.
    pub init: Option<String>,
    /// Segments that were not fetched yet, in order.
    pub segments: Vec<String>,
    /// Whether the stream ends with them.
    pub last: bool,
}

/// The model of what to fetch next.
#[verifier::ext_equal]
pub struct PlanModel {
    pub variant: Option<Seq<char>>,
    pub init: Option<Seq<char>>,
    pub segments: Seq<Seq<char>>,
    pub last: bool,
}

/// Whether a plan is that of a model.
pub open spec fn same_plan(p: HlsPlan, m: PlanModel) -> bool {
    &&& same_text(p.variant, m.variant)
    &&& same_text(p.init, m.init)
    &&& views(p.segments@) == m.segments
    &&& p.last == m.last
}

/// What was fetched of an HLS stream.
pub struct HlsPull {
    seen: Vec<String>,
    map_url: Option<String>,
}

/// The model of what was fetched.
#[verifier::ext_equal]
pub struct PullModel {
    /// Segments, oldest first.
    pub seen: Seq<Seq<char>>,
    /// The initialization segment.
    pub map_url: Option<Seq<char>>,
}

/// An optional text as a model.
pub open spec fn text_model(t: Option<String>) -> Option<Seq<char>> {
    match t {
        Some(s) => Some(s@),
        None => None,
    }
}

impl View for HlsPull {
    type V = PullModel;

    closed spec fn view(&self) -> PullModel {
        PullModel { seen: views(self.seen@), map_url: text_model(self.map_url) }
    }
}

/// The addresses of the first `n` segments that are new, each once, and all
/// that were seen then.
pub open spec fn new_segments(
    seen: Seq<Seq<char>>,
    base: UrlModel,
    segments: Seq<Seq<char>>,
    n: int,
) -> (Seq<Seq<char>>, Seq<Seq<char>>)
    decreases n,
{
    if n <= 0 {
        (Seq::empty(), seen)
    } else {
        let (fresh, known) = new_segments(seen, base, segments, n - 1);
        let url = resolved(base, segments[n - 1]);
        if known.contains(url) {
            (fresh, known)
        } else {
            (fresh.push(url), known.push(url))
        }
    }
}

/// What to fetch after a playlist, and what was fetched then.
pub open spec fn hls_planned(m: PullModel, base: UrlModel, e: PlaylistModel) -> (
    PlanModel,
    PullModel,
) {
    match e.variant {
        Some(v) => (
            PlanModel {
                variant: Some(resolved(base, v)),
                init: None,
                segments: Seq::empty(),
                last: false,
            },
            m,
        ),
        None => {
            let map_url = match e.init_map {
                Some(i) => Some(resolved(base, i)),
                None => m.map_url,
            };
            let init = if map_url != m.map_url {
                map_url
            } else {
                None
            };
            let (fresh, known) = new_segments(m.seen, base, e.segments, e.segments.len() as int);
            (
                PlanModel { variant: None, init, segments: fresh, last: e.end_list },
                PullModel {
                    seen: if !e.end_list && known.len() > MAX_SEEN {
                        Seq::empty()
                    } else {
                        known
                    },
                    map_url,
                },
            )
        },
    }
}

fn holds_name(all: &Vec<String>, name: &str) -> (r: bool)
    ensures
        r == views(all@).contains(name@),
{
    let ghost models = views(all@);
    let mut i: usize = 0;
    while i < all.len()
        invariant
            i <= all@.len(),
            models == views(all@),
            forall|j: int| 0 <= j < i ==> #[trigger] models[j] != name@,
        decreases all@.len() - i,
    {
        assert(models[i as int] == all@[i as int]@);
        if text_eq(all[i].as_str(), name) {
            return true;
        }
        i = i + 1;
    }
    false
}

impl HlsPull {
    pub fn new() -> (r: Self)
        ensures
            r@ == (PullModel { seen: Seq::empty(), map_url: None }),
    {
        let r = Self { seen: Vec::new(), map_url: None };
        assert(r@ =~= PullModel { seen: Seq::empty(), map_url: None });
        r
    }

    fn take_new(&mut self, base: &HttpUrl, segments: &Vec<String>) -> (r: Vec<String>)
        ensures
            ({
                let (fresh, known) = new_segments(
                    old(self)@.seen,
                    base@,
                    views(segments@),
                    segments@.len() as int,
                );
                &&& views(r@) == fresh
                &&& final(self)@ == (PullModel { seen: known, ..old(self)@ })
            }),
    {
        let ghost models = views(segments@);
        let ghost before = self@;
        let mut out: Vec<String> = Vec::new();
        let mut i: usize = 0;
        assert(views(out@) =~= Seq::empty());
        while i < segments.len()
            invariant
                i <= segments@.len(),
                models == views(segments@),
                before == old(self)@,
                text_model(self.map_url) == before.map_url,
                (views(out@), views(self.seen@)) == new_segments(
                    before.seen,
                    base@,
                    models,
                    i as int,
                ),
            decreases segments@.len() - i,
        {
            assert(models[i as int] == segments@[i as int]@);
            let url = base.resolve(segments[i].as_str());
            if !holds_name(&self.seen, url.as_str()) {
                let ghost fresh = views(out@);
                let ghost known = views(self.seen@);
                let ghost u = url@;
                self.seen.push(copy_text(url.as_str()));
                out.push(url);
                assert(views(out@) =~= fresh.push(u));
                assert(views(self.seen@) =~= known.push(u));
            }
            i = i + 1;
        }
        out
    }

    /// What to fetch after the playlist at `base` was read.
    pub fn plan(&mut self, base: &HttpUrl, entries: &PlaylistEntries) -> (r: HlsPlan)
        ensures
            forall|e: PlaylistModel|
                same_entries(*entries, e) ==> {
                    let (plan, next) = #[trigger] hls_planned(old(self)@, base@, e);
                    same_plan(r, plan) && final(self)@ == next
                },
    {
        if let Some(v) = &entries.variant {
            let r = HlsPlan {
                variant: Some(base.resolve(v.as_str())),
                init: None,
                segments: Vec::new(),
                last: false,
            };
            assert(views(r.segments@) =~= Seq::empty());
            return r;
        }
        let ghost before = self@;
        let mut init: Option<String> = None;
        if let Some(m) = &entries.init_map {
            let url = base.resolve(m.as_str());
            let known: bool = match &self.map_url {
                Some(old_url) => text_eq(old_url.as_str(), url.as_str()),
                None => false,
            };
            if !known {
                init = Some(copy_text(url.as_str()));
                self.map_url = Some(url);
            }
        }
        let segments = self.take_new(base, &entries.segments);
        if !entries.end_list && self.seen.len() > MAX_SEEN {
            self.seen = Vec::new();
            assert(views(self.seen@) =~= Seq::empty());
        }
        HlsPlan { variant: None, init, segments, last: entries.end_list }
    }
}

proof fn lemma_new_are_unseen(
    seen: Seq<Seq<char>>,
    base: UrlModel,
    segments: Seq<Seq<char>>,
    n: int,
)
    requires
        0 <= n <= segments.len(),
    ensures
        ({
            let (fresh, known) = new_segments(seen, base, segments, n);
            &&& known == seen + fresh
            &&& fresh.no_duplicates()
            &&& forall|i: int| 0 <= i < fresh.len() ==> !seen.contains(#[trigger] fresh[i])
        }),
    decreases n,
{
    if n <= 0 {
        assert(seen + Seq::<Seq<char>>::empty() =~= seen);
    } else {
        lemma_new_are_unseen(seen, base, segments, n - 1);
        let (fresh, known) = new_segments(seen, base, segments, n - 1);
        let url = resolved(base, segments[n - 1]);
        if !known.contains(url) {
            assert(known.push(url) =~= seen + fresh.push(url));
            assert(!seen.contains(url)) by {
                if seen.contains(url) {
                    let i = choose|i: int| 0 <= i < seen.len() && seen[i] == url;
                    assert(known[i] == url);
                }
            }
            assert(!fresh.contains(url)) by {
                if fresh.contains(url) {
                    let i = choose|i: int| 0 <= i < fresh.len() && fresh[i] == url;
                    assert(known[seen.len() + i] == url);
                }
            }
            let longer = fresh.push(url);
            assert forall|i: int, j: int|
                0 <= i < longer.len() && 0 <= j < longer.len() && i != j implies longer[i]
                != longer[j] by {
                if i == fresh.len() {
                    assert(fresh.contains(fresh[j]));
                } else if j == fresh.len() {
                    assert(fresh.contains(fresh[i]));
                }
            }
        }
    }
}

/// A segment that is remembered is not fetched again, and none is fetched
/// twice for one playlist.
pub proof fn law_segments_are_fetched_once(m: PullModel, base: UrlModel, e: PlaylistModel)
    ensures
        ({
            let segments = hls_planned(m, base, e).0.segments;
            &&& segments.no_duplicates()
            &&& forall|i: int| 0 <= i < segments.len() ==> !m.seen.contains(#[trigger] segments[i])
        }),
{
    lemma_new_are_unseen(m.seen, base, e.segments, e.segments.len() as int);
}

} // verus!
