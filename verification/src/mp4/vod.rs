//! Video on demand: a parsed file replayed from any point, and the lookup of
//! recorded files.
use vstd::prelude::*;
use vstd::utf8::{decode_utf8, encode_utf8, valid_utf8};
use crate::bytes::views;
use crate::media::{AudioInfo, FrameModel, FrameType, MediaFrame, TrackInfo, VideoInfo};
use crate::mp4::demuxer::{
    DemuxedTrack, Mp4Demuxer, ParsedModel, TrackModel, interleaved_frames, playback_order,
};
use crate::mp4::entries::TrackKind;
use crate::text::{
    chars_of, contains_char, copy_text, decode_text, ends_with, finishes_with, is_text, lowered,
    pieces, push_chars, same_text, split, text_of, to_lower, trim_front, trim_start_char,
};

verus! {

/// The application name under which recorded files are addressed.
pub const VOD_APP: &'static str = "record";

/// The file holds nothing that can be played.
#[derive(Debug, Clone, Copy, PartialEq, Eq, Structural)]
pub enum VodError {
    NoSamples,
}

/// A parsed file that can be replayed by many clients.
#[derive(Debug)]
pub struct VodAsset {
    pub tracks: Vec<DemuxedTrack>,
    pub frames: Vec<MediaFrame>,
    pub duration_ms: u64,
}

/// A part of a file, its times counted from its start.
#[derive(Debug)]
pub struct VodPlayback {
    pub frames: Vec<MediaFrame>,
    /// Where the part starts in the file.
    pub start_ms: u64,
    pub duration_ms: u64,
}

/// What is known of a file as a media source.
#[derive(Debug)]
pub struct MediaInfo {
    pub tracks: Vec<TrackInfo>,
    /// Duration in milliseconds.
    pub duration_ms: Option<u64>,
    pub metadata: Option<String>,
}

/// A product by 1000, or the largest 64-bit number.
pub open spec fn thousandfold(n: int) -> int {
    if n * 1000 > u64::MAX {
        u64::MAX as int
    } else {
        n * 1000
    }
}

/// The longest of the first `n` tracks that have a time base.
pub open spec fn longest_track(tracks: Seq<TrackModel>, n: int) -> Option<int>
    decreases n,
{
    if n <= 0 {
        None
    } else {
        let before = longest_track(tracks, n - 1);
        let t = tracks[n - 1];
        if t.timescale == 0 {
            before
        } else {
            let ms = thousandfold(t.duration as int) / t.timescale as int;
            match before {
                Some(b) => if b >= ms {
                    Some(b)
                } else {
                    Some(ms)
                },
                None => Some(ms),
            }
        }
    }
}

/// The later of the two times of a frame.
pub open spec fn later_time(f: FrameModel) -> int {
    if f.pts >= f.dts {
        f.pts as int
    } else {
        f.dts as int
    }
}

/// The latest time of the media frames among the first `n`.
pub open spec fn latest_time(frames: Seq<FrameModel>, n: int) -> int
    decreases n,
{
    if n <= 0 {
        0
    } else {
        let before = latest_time(frames, n - 1);
        let f = frames[n - 1];
        if f.config_frame || later_time(f) <= before {
            before
        } else {
            later_time(f)
        }
    }
}

/// The duration of a file: that of its longest track, or else the latest time
/// of its frames.
pub open spec fn asset_duration(tracks: Seq<TrackModel>, frames: Seq<FrameModel>) -> int {
    match longest_track(tracks, tracks.len() as int) {
        Some(ms) => ms,
        None => latest_time(frames, frames.len() as int),
    }
}

/// Whether there is nothing but decoder configurations.
pub open spec fn only_configs(frames: Seq<FrameModel>) -> bool {
    forall|i: int| 0 <= i < frames.len() ==> (#[trigger] frames[i]).config_frame
}

/// The tracks of a parsed file.
pub open spec fn tracks_of(parsed: Seq<ParsedModel>) -> Seq<TrackModel> {
    Seq::new(parsed.len(), |i: int| parsed[i].track)
}

/// The time of a frame: the earliest that it carries.
pub open spec fn frame_time(f: FrameModel) -> int {
    let a = if f.dts <= f.pts {
        f.dts as int
    } else {
        f.pts as int
    };
    if a <= f.timestamp {
        a
    } else {
        f.timestamp as int
    }
}

/// Whether a frame carries media; with `key`, whether decoding of pictures can
/// start at it.
pub open spec fn is_candidate(f: FrameModel, key: bool) -> bool {
    !f.config_frame && (key ==> f.frame_type == FrameType::Video && f.key_frame)
}

/// The time of the first candidate from `i` on.
pub open spec fn first_time(frames: Seq<FrameModel>, key: bool, i: int) -> Option<int>
    decreases frames.len() - i,
{
    if i < 0 || i >= frames.len() {
        None
    } else if is_candidate(frames[i], key) {
        Some(frame_time(frames[i]))
    } else {
        first_time(frames, key, i + 1)
    }
}

/// The latest time of the candidates among the first `n` that are not later
/// than `limit`.
pub open spec fn last_time_before(
    frames: Seq<FrameModel>,
    key: bool,
    limit: int,
    n: int,
) -> Option<int>
    decreases n,
{
    if n <= 0 {
        None
    } else {
        let before = last_time_before(frames, key, limit, n - 1);
        let f = frames[n - 1];
        if is_candidate(f, key) && frame_time(f) <= limit {
            match before {
                Some(b) => if b >= frame_time(f) {
                    Some(b)
                } else {
                    Some(frame_time(f))
                },
                None => Some(frame_time(f)),
            }
        } else {
            before
        }
    }
}

/// Where playback from `requested` starts: at the last key frame before it, or
/// else at the first key frame, or, without key frames, at the last frame
/// before it, or else at the first frame.
pub open spec fn playback_start(frames: Seq<FrameModel>, requested: int) -> int {
    let n = frames.len() as int;
    match (last_time_before(frames, true, requested, n), first_time(frames, true, 0)) {
        (Some(t), _) => t,
        (None, Some(t)) => t,
        (None, None) => match last_time_before(frames, false, requested, n) {
            Some(t) => t,
            None => match first_time(frames, false, 0) {
                Some(t) => t,
                None => 0,
            },
        },
    }
}

/// A number less another, none below zero.
pub open spec fn less(a: int, b: int) -> int {
    if a >= b {
        a - b
    } else {
        0
    }
}

/// A frame with its times counted from `start`.
pub open spec fn rebased(f: FrameModel, start: int) -> FrameModel {
    FrameModel {
        timestamp: less(f.timestamp as int, start) as u32,
        pts: less(f.pts as int, start) as u64,
        dts: less(f.dts as int, start) as u64,
        ..f
    }
}

/// The decoder configurations among the first `n` frames.
pub open spec fn configs_among(frames: Seq<FrameModel>, n: int) -> Seq<FrameModel>
    decreases n,
{
    if n <= 0 {
        Seq::empty()
    } else if frames[n - 1].config_frame {
        configs_among(frames, n - 1).push(frames[n - 1])
    } else {
        configs_among(frames, n - 1)
    }
}

/// The media frames among the first `n` that are not before `start`, their
/// times counted from it.
pub open spec fn media_from(frames: Seq<FrameModel>, start: int, n: int) -> Seq<FrameModel>
    decreases n,
{
    if n <= 0 {
        Seq::empty()
    } else if !frames[n - 1].config_frame && frame_time(frames[n - 1]) >= start {
        media_from(frames, start, n - 1).push(rebased(frames[n - 1], start))
    } else {
        media_from(frames, start, n - 1)
    }
}

/// What playback from `start` hands out: the decoder configurations, then the
/// media frames that are not before it.
pub open spec fn played_frames(frames: Seq<FrameModel>, start: int) -> Seq<FrameModel> {
    let n = frames.len() as int;
    configs_among(frames, n) + media_from(frames, start, n)
}

/// What the tracks of a file are as a media source.
pub open spec fn source_tracks(tracks: Seq<TrackModel>, n: int) -> Seq<TrackInfo>
    decreases n,
{
    if n <= 0 {
        Seq::empty()
    } else {
        let before = source_tracks(tracks, n - 1);
        let t = tracks[n - 1];
        match t.handler {
            TrackKind::Video => before.push(
                TrackInfo::Video(
                    VideoInfo {
                        codec: t.codec,
                        width: t.width,
                        height: t.height,
                        fps: t.fps,
                        key_frame: true,
                    },
                ),
            ),
            TrackKind::Audio => before.push(
                TrackInfo::Audio(
                    AudioInfo {
                        codec: t.codec,
                        sample_rate: if t.sample_rate >= 1 {
                            t.sample_rate
                        } else {
                            1
                        },
                        channels: 2,
                        bits_per_sample: 16,
                    },
                ),
            ),
            TrackKind::Other => before,
        }
    }
}

/// A time at or before the limit that is found is one of a candidate, and none
/// is later.
proof fn lemma_last_time(frames: Seq<FrameModel>, key: bool, limit: int, n: int)
    requires
        0 <= n <= frames.len(),
    ensures
        match last_time_before(frames, key, limit, n) {
            Some(t) => {
                &&& 0 <= t <= limit
                &&& exists|i: int|
                    0 <= i < n && is_candidate(#[trigger] frames[i], key) && frame_time(frames[i])
                        == t
                &&& forall|i: int|
                    0 <= i < n && is_candidate(#[trigger] frames[i], key) && frame_time(frames[i])
                        <= limit ==> frame_time(frames[i]) <= t
            },
            None => forall|i: int|
                0 <= i < n && is_candidate(#[trigger] frames[i], key) ==> frame_time(frames[i])
                    > limit,
        },
    decreases n,
{
    if n > 0 {
        lemma_last_time(frames, key, limit, n - 1);
        let f = frames[n - 1];
        if is_candidate(f, key) && frame_time(f) <= limit {
            assert(is_candidate(frames[n - 1], key));
        }
    }
}

/// Playback from a point at or behind a key frame starts at a key frame that
/// is not later, and at the last such one.
pub proof fn law_playback_starts_at_preceding_keyframe(
    frames: Seq<FrameModel>,
    requested: int,
    k: int,
)
    requires
        0 <= k < frames.len(),
        is_candidate(frames[k], true),
        frame_time(frames[k]) <= requested,
    ensures
        ({
            let start = playback_start(frames, requested);
            &&& frame_time(frames[k]) <= start <= requested
            &&& exists|i: int|
                0 <= i < frames.len() && is_candidate(#[trigger] frames[i], true) && frame_time(
                    frames[i],
                ) == start
        }),
{
    lemma_last_time(frames, true, requested, frames.len() as int);
}

/// Counting times from the start of playback keeps the distances between
/// frames: the time of a frame that is played is its time in the file less the
/// start.
pub proof fn law_rebased_time(f: FrameModel, start: int)
    requires
        0 <= start <= frame_time(f),
    ensures
        frame_time(rebased(f, start)) == frame_time(f) - start,
        rebased(f, start).data == f.data,
        rebased(f, start).key_frame == f.key_frame,
{
}

/// Every media frame at or behind the start of playback is played.
pub proof fn law_playback_is_complete(frames: Seq<FrameModel>, start: int, n: int, k: int)
    requires
        0 <= k < n <= frames.len(),
        !frames[k].config_frame,
        frame_time(frames[k]) >= start,
    ensures
        media_from(frames, start, n).contains(rebased(frames[k], start)),
    decreases n,
{
    let r = rebased(frames[k], start);
    if k == n - 1 {
        let m = media_from(frames, start, n);
        assert(m[m.len() - 1] == r);
    } else {
        law_playback_is_complete(frames, start, n - 1, k);
        let before = media_from(frames, start, n - 1);
        let i = choose|i: int| 0 <= i < before.len() && before[i] == r;
        assert(media_from(frames, start, n)[i] == r);
    }
}

/// The time of a frame.
fn frame_time_ms(f: &MediaFrame) -> (r: u64)
    ensures
        r == frame_time(f@),
        r <= u32::MAX,
{
    let a: u64 = if f.dts <= f.pts {
        f.dts
    } else {
        f.pts
    };
    if a <= f.timestamp as u64 {
        a
    } else {
        f.timestamp as u64
    }
}

fn candidate(f: &MediaFrame, key: bool) -> (r: bool)
    ensures
        r == is_candidate(f@, key),
{
    !f.config_frame && (!key || (f.frame_type == FrameType::Video && f.key_frame))
}

fn find_first_time(frames: &Vec<MediaFrame>, key: bool) -> (r: Option<u64>)
    ensures
        match (r, first_time(views(frames@), key, 0)) {
            (Some(a), Some(b)) => a == b,
            (None, None) => true,
            _ => false,
        },
{
    let mut i: usize = 0;
    while i < frames.len()
        invariant
            i <= frames@.len(),
            first_time(views(frames@), key, i as int) == first_time(views(frames@), key, 0),
        decreases frames@.len() - i,
    {
        assert(views(frames@)[i as int] == frames@[i as int]@);
        if candidate(&frames[i], key) {
            return Some(frame_time_ms(&frames[i]));
        }
        i = i + 1;
    }
    None
}

fn find_last_time(frames: &Vec<MediaFrame>, key: bool, limit: u64) -> (r: Option<u64>)
    ensures
        match (
            r,
            last_time_before(views(frames@), key, limit as int, frames@.len() as int),
        ) {
            (Some(a), Some(b)) => a == b,
            (None, None) => true,
            _ => false,
        },
{
    let mut found: Option<u64> = None;
    let mut i: usize = 0;
    while i < frames.len()
        invariant
            i <= frames@.len(),
            match (found, last_time_before(views(frames@), key, limit as int, i as int)) {
                (Some(a), Some(b)) => a == b,
                (None, None) => true,
                _ => false,
            },
        decreases frames@.len() - i,
    {
        assert(views(frames@)[i as int] == frames@[i as int]@);
        let t: u64 = frame_time_ms(&frames[i]);
        if candidate(&frames[i], key) && t <= limit {
            found = match found {
                Some(b) => if b >= t {
                    Some(b)
                } else {
                    Some(t)
                },
                None => Some(t),
            };
        }
        i = i + 1;
    }
    found
}

fn sub_or_zero(a: u64, b: u64) -> (r: u64)
    ensures
        r == less(a as int, b as int),
{
    if a >= b {
        a - b
    } else {
        0
    }
}

impl VodAsset {
    /// Prepares a parsed file for playback.
    pub fn from_demuxer(demuxer: &Mp4Demuxer) -> (r: Result<Self, VodError>)
        ensures
            exists|p: Seq<int>|
                #[trigger] playback_order(demuxer@, p) && match r {
                    Ok(a) => {
                        &&& views(a.tracks@) == tracks_of(demuxer@)
                        &&& views(a.frames@) == interleaved_frames(demuxer@, p)
                        &&& a.duration_ms == asset_duration(views(a.tracks@), views(a.frames@))
                        &&& a.tracks@.len() > 0
                        &&& !only_configs(views(a.frames@))
                    },
                    Err(e) => e == VodError::NoSamples && (demuxer@.len() == 0 || only_configs(
                        interleaved_frames(demuxer@, p),
                    )),
                },
    {
        let tracks = demuxer.tracks();
        assert(views(tracks@) =~= tracks_of(demuxer@));
        let frames = demuxer.interleaved_media_frames();
        let ghost p = choose|p: Seq<int>|
            #[trigger] playback_order(demuxer@, p) && views(frames@) == interleaved_frames(
                demuxer@,
                p,
            );
        let ghost fm = views(frames@);
        let mut playable: bool = false;
        let mut latest: u64 = 0;
        let mut i: usize = 0;
        while i < frames.len()
            invariant
                i <= frames@.len(),
                fm == views(frames@),
                playable == exists|k: int| 0 <= k < i && !(#[trigger] fm[k]).config_frame,
                latest == latest_time(fm, i as int),
            decreases frames@.len() - i,
        {
            let f = &frames[i];
            assert(fm[i as int] == f@);
            if !f.config_frame {
                playable = true;
                let t: u64 = if f.pts >= f.dts {
                    f.pts
                } else {
                    f.dts
                };
                if t > latest {
                    latest = t;
                }
            }
            i = i + 1;
        }
        if tracks.len() == 0 || !playable {
            return Err(VodError::NoSamples);
        }
        let mut longest: Option<u64> = None;
        let mut k: usize = 0;
        while k < tracks.len()
            invariant
                k <= tracks@.len(),
                match (longest, longest_track(views(tracks@), k as int)) {
                    (Some(a), Some(b)) => a == b,
                    (None, None) => true,
                    _ => false,
                },
            decreases tracks@.len() - k,
        {
            let t = &tracks[k];
            assert(views(tracks@)[k as int] == t@);
            if t.timescale != 0 {
                let scaled: u64 = if t.duration > u64::MAX / 1000 {
                    u64::MAX
                } else {
                    t.duration * 1000
                };
                let ms: u64 = scaled / t.timescale as u64;
                longest = match longest {
                    Some(b) => if b >= ms {
                        Some(b)
                    } else {
                        Some(ms)
                    },
                    None => Some(ms),
                };
            }
            k = k + 1;
        }
        let duration_ms: u64 = match longest {
            Some(ms) => ms,
            None => latest,
        };
        Ok(VodAsset { tracks, frames, duration_ms })
    }

    pub fn tracks(&self) -> (r: &[DemuxedTrack])
        ensures
            r@ == self.tracks@,
    {
        self.tracks.as_slice()
    }

    pub fn duration_ms(&self) -> (r: u64)
        ensures
            r == self.duration_ms,
    {
        self.duration_ms
    }

    /// What is known of the file as a media source.
    pub fn media_info(&self) -> (r: MediaInfo)
        ensures
            r.tracks@ == source_tracks(views(self.tracks@), self.tracks@.len() as int),
            r.duration_ms == Some(self.duration_ms),
            r.metadata is Some && r.metadata->0@ == "mp4-vod"@,
    {
        let mut tracks: Vec<TrackInfo> = Vec::new();
        let mut i: usize = 0;
        while i < self.tracks.len()
            invariant
                i <= self.tracks@.len(),
                tracks@ == source_tracks(views(self.tracks@), i as int),
            decreases self.tracks@.len() - i,
        {
            let t = &self.tracks[i];
            assert(views(self.tracks@)[i as int] == t@);
            match t.handler {
                TrackKind::Video => {
                    tracks.push(
                        TrackInfo::Video(
                            VideoInfo {
                                codec: t.codec,
                                width: t.width,
                                height: t.height,
                                fps: t.fps,
                                key_frame: true,
                            },
                        ),
                    );
                },
                TrackKind::Audio => {
                    tracks.push(
                        TrackInfo::Audio(
                            AudioInfo {
                                codec: t.codec,
                                sample_rate: if t.sample_rate >= 1 {
                                    t.sample_rate
                                } else {
                                    1
                                },
                                channels: 2,
                                bits_per_sample: 16,
                            },
                        ),
                    );
                },
                TrackKind::Other => {},
            }
            i = i + 1;
        }
        MediaInfo {
            tracks,
            duration_ms: Some(self.duration_ms),
            metadata: Some(copy_text("mp4-vod")),
        }
    }

    /// The part of the file from the last key frame before the requested point
    /// on, its times counted from there. Decoder configurations come first.
    pub fn playback(&self, requested_start_ms: u64) -> (r: VodPlayback)
        ensures
            ({
                let all = views(self.frames@);
                let n = all.len() as int;
                let start = playback_start(all, requested_start_ms as int);
                &&& r.start_ms == start
                &&& r.duration_ms == less(self.duration_ms as int, start)
                &&& views(r.frames@) == played_frames(all, start)
                &&& views(r.frames@) == configs_among(all, n) + media_from(all, start, n)
            }),
    {
        let ghost all = views(self.frames@);
        let start_ms: u64 = match find_last_time(&self.frames, true, requested_start_ms) {
            Some(t) => t,
            None => match find_first_time(&self.frames, true) {
                Some(t) => t,
                None => match find_last_time(&self.frames, false, requested_start_ms) {
                    Some(t) => t,
                    None => match find_first_time(&self.frames, false) {
                        Some(t) => t,
                        None => 0,
                    },
                },
            },
        };
        let mut frames: Vec<MediaFrame> = Vec::new();
        let mut i: usize = 0;
        assert(views(frames@) =~= Seq::empty());
        while i < self.frames.len()
            invariant
                i <= self.frames@.len(),
                all == views(self.frames@),
                views(frames@) == configs_among(all, i as int),
            decreases self.frames@.len() - i,
        {
            assert(all[i as int] == self.frames@[i as int]@);
            if self.frames[i].config_frame {
                let ghost before = views(frames@);
                let f = self.frames[i].duplicate();
                frames.push(f);
                assert(views(frames@) =~= before.push(f@));
            }
            i = i + 1;
        }
        let ghost configs = views(frames@);
        let mut k: usize = 0;
        assert(configs + Seq::<FrameModel>::empty() =~= configs);
        while k < self.frames.len()
            invariant
                k <= self.frames@.len(),
                all == views(self.frames@),
                views(frames@) == configs + media_from(all, start_ms as int, k as int),
            decreases self.frames@.len() - k,
        {
            assert(all[k as int] == self.frames@[k as int]@);
            if !self.frames[k].config_frame && frame_time_ms(&self.frames[k]) >= start_ms {
                let ghost before = views(frames@);
                let mut f = self.frames[k].duplicate();
                f.timestamp = sub_or_zero(f.timestamp as u64, start_ms) as u32;
                f.pts = sub_or_zero(f.pts, start_ms);
                f.dts = sub_or_zero(f.dts, start_ms);
                frames.push(f);
                proof {
                    assert(f@ == rebased(all[k as int], start_ms as int));
                    assert(views(frames@) =~= before.push(f@));
                    assert(before.push(f@) =~= configs + media_from(
                        all,
                        start_ms as int,
                        k as int,
                    ).push(f@));
                }
            }
            k = k + 1;
        }
        VodPlayback { frames, start_ms, duration_ms: sub_or_zero(self.duration_ms, start_ms) }
    }
}

// ── recorded files ──────────────────────────────────────────────────────

/// The value of a hexadecimal digit.
pub open spec fn hex_value(b: u8) -> Option<int> {
    if 0x30 <= b <= 0x39 {
        Some(b - 0x30)
    } else if 0x61 <= b <= 0x66 {
        Some(b - 0x61 + 10)
    } else if 0x41 <= b <= 0x46 {
        Some(b - 0x41 + 10)
    } else {
        None
    }
}

pub fn hex(value: u8) -> (r: Option<u8>)
    ensures
        match (r, hex_value(value)) {
            (Some(a), Some(b)) => a == b && a < 16,
            (None, None) => true,
            _ => false,
        },
{
    if 0x30 <= value && value <= 0x39 {
        Some(value - 0x30)
    } else if 0x61 <= value && value <= 0x66 {
        Some(value - 0x61 + 10)
    } else if 0x41 <= value && value <= 0x46 {
        Some(value - 0x41 + 10)
    } else {
        None
    }
}

/// The bytes that a percent-encoded text stands for.
pub open spec fn percent_bytes(b: Seq<u8>) -> Option<Seq<u8>>
    decreases b.len(),
{
    if b.len() == 0 {
        Some(Seq::empty())
    } else if b[0] != 0x25 {
        match percent_bytes(b.skip(1)) {
            Some(rest) => Some(seq![b[0]] + rest),
            None => None,
        }
    } else if b.len() < 3 {
        None
    } else {
        match (hex_value(b[1]), hex_value(b[2]), percent_bytes(b.skip(3))) {
            (Some(high), Some(low), Some(rest)) => Some(seq![(high * 16 + low) as u8] + rest),
            _ => None,
        }
    }
}

/// The text that a percent-encoded text stands for.
pub open spec fn percent_decoded(s: Seq<char>) -> Option<Seq<char>> {
    match percent_bytes(encode_utf8(s)) {
        Some(b) => if valid_utf8(b) {
            Some(decode_utf8(b))
        } else {
            None
        },
        None => None,
    }
}

/// Decodes a percent-encoded text.
pub fn percent_decode(value: &str) -> (r: Option<String>)
    ensures
        same_text(r, percent_decoded(value@)),
{
    let bytes = value.as_bytes();
    let len: usize = bytes.len();
    let mut out: Vec<u8> = Vec::new();
    let mut i: usize = 0;
    proof {
        assert(bytes@.skip(0) =~= bytes@);
        if let Some(all) = percent_bytes(bytes@) {
            assert(out@ + all =~= all);
        }
    }
    while i < len
        invariant
            len == bytes@.len(),
            i <= len,
            bytes@ == encode_utf8(value@),
            match (percent_bytes(bytes@.skip(i as int)), percent_bytes(bytes@)) {
                (Some(rest), Some(all)) => out@ + rest == all,
                (None, None) => true,
                _ => false,
            },
        decreases len - i,
    {
        let ghost tail = bytes@.skip(i as int);
        assert(tail[0] == bytes@[i as int]);
        if bytes[i] == 0x25 {
            if len - i < 3 {
                return None;
            }
            proof {
                assert(tail[1] == bytes@[i + 1]);
                assert(tail[2] == bytes@[i + 2]);
                assert(tail.skip(3) =~= bytes@.skip(i + 3));
            }
            let high: u8 = match hex(bytes[i + 1]) {
                Some(h) => h,
                None => {
                    return None;
                },
            };
            let low: u8 = match hex(bytes[i + 2]) {
                Some(l) => l,
                None => {
                    return None;
                },
            };
            let b: u8 = high * 16 + low;
            proof {
                if let Some(rest) = percent_bytes(bytes@.skip(i + 3)) {
                    assert(out@ + (seq![b] + rest) =~= out@.push(b) + rest);
                }
            }
            out.push(b);
            i = i + 3;
        } else {
            proof {
                assert(tail.skip(1) =~= bytes@.skip(i + 1));
                if let Some(rest) = percent_bytes(bytes@.skip(i + 1)) {
                    assert(out@ + (seq![tail[0]] + rest) =~= out@.push(tail[0]) + rest);
                }
            }
            out.push(bytes[i]);
            i = i + 1;
        }
    }
    proof {
        assert(bytes@.skip(i as int) =~= Seq::empty());
        assert(out@ + Seq::<u8>::empty() =~= out@);
    }
    decode_text(out)
}

/// Whether a relative path stays below the directory it is joined to: it does
/// not begin with `.` and has no `..` among its parts.
pub open spec fn stays_below(relative: Seq<char>) -> bool {
    let parts = pieces(relative, '/');
    &&& parts[0] != "."@
    &&& forall|i: int| 0 <= i < parts.len() ==> #[trigger] parts[i] != ".."@
}

/// A path taken from a directory: an absolute one stands for itself.
pub open spec fn joined(root: Seq<char>, relative: Seq<char>) -> Seq<char> {
    if relative.len() > 0 && relative[0] == '/' {
        relative
    } else if root.len() == 0 || root.last() == '/' {
        root + relative
    } else {
        root.push('/') + relative
    }
}

/// Whether a decoded name may address a recorded file.
pub open spec fn name_allowed(name: Seq<char>) -> bool {
    &&& name.len() > 0
    &&& !name.contains('\\')
    &&& !name.contains(':')
    &&& finishes_with(lowered(name), ".mp4"@)
    &&& stays_below(trim_front(name, '/'))
}

/// The file that a stream name addresses.
pub open spec fn resolved_path(root: Seq<char>, app: Seq<char>, stream: Seq<char>) -> Option<
    Seq<char>,
> {
    if app != VOD_APP@ {
        None
    } else {
        match percent_decoded(stream) {
            Some(name) => if name_allowed(name) {
                Some(joined(root, trim_front(name, '/')))
            } else {
                None
            },
            None => None,
        }
    }
}

/// Whether a relative path stays below the directory it is joined to.
pub fn path_stays_below(relative: &[char]) -> (r: bool)
    ensures
        r == stays_below(relative@),
{
    let parts = split(relative, '/');
    let ghost models = views(parts@);
    assert(models[0] == parts@[0]@);
    if is_text(parts[0], ".") {
        return false;
    }
    let mut i: usize = 0;
    while i < parts.len()
        invariant
            i <= parts@.len(),
            models == views(parts@),
            models == pieces(relative@, '/'),
            forall|j: int| 0 <= j < i ==> #[trigger] models[j] != ".."@,
        decreases parts@.len() - i,
    {
        assert(models[i as int] == parts@[i as int]@);
        if is_text(parts[i], "..") {
            return false;
        }
        i = i + 1;
    }
    true
}

/// A path taken from a directory: an absolute one stands for itself.
pub fn join_path(root: &str, relative: &[char]) -> (r: String)
    ensures
        r@ == joined(root@, relative@),
{
    if relative.len() > 0 && relative[0] == '/' {
        return text_of(relative);
    }
    let rc = chars_of(root);
    let mut out = text_of(rc.as_slice());
    if rc.len() > 0 && rc[rc.len() - 1] != '/' {
        out.push('/');
    }
    push_chars(&mut out, relative);
    out
}

/// Recorded files below one directory.
#[derive(Debug)]
pub struct Mp4VodLibrary {
    root: String,
}

impl View for Mp4VodLibrary {
    type V = Seq<char>;

    closed spec fn view(&self) -> Seq<char> {
        self.root@
    }
}

impl Mp4VodLibrary {
    pub fn new(root: &str) -> (r: Self)
        ensures
            r@ == root@,
    {
        Self { root: copy_text(root) }
    }

    pub fn root(&self) -> (r: &str)
        ensures
            r@ == self@,
    {
        self.root.as_str()
    }

    /// The file that a stream name addresses: only `.mp4` files, and only
    /// below the root.
    pub fn resolve(&self, app: &str, stream: &str) -> (r: Option<String>)
        ensures
            same_text(r, resolved_path(self@, app@, stream@)),
    {
        let app_chars = chars_of(app);
        if !is_text(app_chars.as_slice(), VOD_APP) {
            return None;
        }
        let decoded = match percent_decode(stream) {
            Some(d) => d,
            None => {
                return None;
            },
        };
        let name = chars_of(decoded.as_str());
        let lower = to_lower(name.as_slice());
        if name.len() == 0 || contains_char(name.as_slice(), '\\') || contains_char(
            name.as_slice(),
            ':',
        ) || !ends_with(lower.as_slice(), ".mp4") {
            return None;
        }
        let relative = trim_start_char(name.as_slice(), '/');
        if !path_stays_below(relative) {
            return None;
        }
        Some(join_path(self.root.as_str(), relative))
    }
}

/// A file that is found lies below the root: its path is the root followed by
/// parts none of which leads upwards, and it names an MP4 file.
pub proof fn law_resolved_path_stays_below_root(
    root: Seq<char>,
    app: Seq<char>,
    stream: Seq<char>,
    path: Seq<char>,
)
    requires
        resolved_path(root, app, stream) == Some(path),
    ensures
        exists|relative: Seq<char>|
            {
                &&& path == #[trigger] joined(root, relative)
                &&& relative.len() > 0 ==> relative[0] != '/'
                &&& stays_below(relative)
                &&& !relative.contains('\\')
                &&& !relative.contains(':')
            },
{
    let name = percent_decoded(stream).unwrap();
    let relative = trim_front(name, '/');
    lemma_trim_keeps(name, '/', '\\');
    lemma_trim_keeps(name, '/', ':');
    lemma_trim_front(name, '/');
    assert(path == joined(root, relative));
}

proof fn lemma_trim_front(s: Seq<char>, c: char)
    ensures
        trim_front(s, c).len() > 0 ==> trim_front(s, c)[0] != c,
    decreases s.len(),
{
    if s.len() > 0 && s[0] == c {
        lemma_trim_front(s.skip(1), c);
    }
}

proof fn lemma_trim_keeps(s: Seq<char>, c: char, d: char)
    requires
        !s.contains(d),
    ensures
        !trim_front(s, c).contains(d),
    decreases s.len(),
{
    if s.len() > 0 && s[0] == c {
        let t = s.skip(1);
        assert(!t.contains(d)) by {
            if t.contains(d) {
                let i = choose|i: int| 0 <= i < t.len() && t[i] == d;
                assert(s[i + 1] == d);
            }
        }
        lemma_trim_keeps(t, c, d);
    }
}

} // verus!
