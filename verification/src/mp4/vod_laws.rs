//! What playback of a recorded file is: which frames are played, when, and
//! from where.
use vstd::prelude::*;
use crate::media::{FrameModel, FrameType};
use crate::mp4::demuxer::TrackModel;
use crate::mp4::vod::{
    asset_duration, configs_among, first_time, is_candidate, last_time_before, latest_time, less,
    longest_track, media_from, playback_start, played_frames,
};

verus! {

/// Whether `t` is the earliest of the three times of a frame.
pub open spec fn begins_at(f: FrameModel, t: int) -> bool {
    &&& t <= f.timestamp && t <= f.pts && t <= f.dts
    &&& t == f.timestamp || t == f.pts || t == f.dts
}

/// Whether decoding of pictures can start at a frame.
pub open spec fn is_key_picture(f: FrameModel) -> bool {
    !f.config_frame && f.frame_type == FrameType::Video && f.key_frame
}

/// Whether `places` are places among `n` items, each later than the one
/// before.
pub open spec fn places_ascend(places: Seq<int>, n: int) -> bool {
    &&& forall|i: int| 0 <= i < places.len() ==> 0 <= #[trigger] places[i] < n
    &&& forall|i: int, j: int|
        0 <= i < j < places.len() ==> #[trigger] places[i] < #[trigger] places[j]
}

proof fn lemma_pushed_place(places: Seq<int>, n: int, k: int)
    requires
        0 <= n,
        places_ascend(places, n),
    ensures
        places_ascend(places, n + 1),
        places_ascend(places.push(n), n + 1),
        places.push(n).contains(k) <==> places.contains(k) || k == n,
{
    let next = places.push(n);
    if places.contains(k) {
        let i = choose|i: int| 0 <= i < places.len() && places[i] == k;
        assert(next[i] == k);
    }
    if k == n {
        assert(next[places.len() as int] == k);
    }
    if next.contains(k) {
        let i = choose|i: int| 0 <= i < next.len() && next[i] == k;
        assert(i == places.len() || places[i] == k);
    }
}

/// Where the configurations among the first `n` frames stand.
proof fn lemma_config_places(frames: Seq<FrameModel>, n: int) -> (places: Seq<int>)
    requires
        0 <= n <= frames.len(),
    ensures
        places_ascend(places, n),
        forall|k: int| #![trigger places.contains(k)]
            places.contains(k) <==> 0 <= k < n && frames[k].config_frame,
        configs_among(frames, n).len() == places.len(),
        forall|i: int|
            0 <= i < places.len() ==> #[trigger] configs_among(frames, n)[i] == frames[places[i]],
    decreases n,
{
    if n == 0 {
        Seq::empty()
    } else {
        let before = lemma_config_places(frames, n - 1);
        assert forall|k: int| #![trigger before.push(n - 1).contains(k)] before.push(
            n - 1,
        ).contains(k) <==> before.contains(k) || k == n - 1 by {
            lemma_pushed_place(before, n - 1, k);
        }
        lemma_pushed_place(before, n - 1, n - 1);
        if frames[n - 1].config_frame {
            before.push(n - 1)
        } else {
            before
        }
    }
}

/// Whether `g` is the frame `f` with its times counted from `start`.
pub open spec fn counted_from(f: FrameModel, g: FrameModel, start: int) -> bool {
    &&& g.timestamp == f.timestamp - start
    &&& g.pts == f.pts - start
    &&& g.dts == f.dts - start
    &&& g.track_id == f.track_id
    &&& g.frame_type == f.frame_type
    &&& g.codec == f.codec
    &&& g.data == f.data
    &&& g.key_frame == f.key_frame
    &&& g.config_frame == f.config_frame
    &&& g.payload_format == f.payload_format
}

/// Whether a frame carries media none of whose times is before `start`.
pub open spec fn plays_from(f: FrameModel, start: int) -> bool {
    !f.config_frame && f.timestamp >= start && f.pts >= start && f.dts >= start
}

/// Where the media frames that are played among the first `n` stand.
proof fn lemma_media_places(frames: Seq<FrameModel>, start: int, n: int) -> (places: Seq<int>)
    requires
        0 <= start,
        0 <= n <= frames.len(),
    ensures
        places_ascend(places, n),
        forall|k: int| #![trigger places.contains(k)]
            places.contains(k) <==> 0 <= k < n && plays_from(frames[k], start),
        media_from(frames, start, n).len() == places.len(),
        forall|i: int|
            0 <= i < places.len() ==> counted_from(
                frames[places[i]],
                #[trigger] media_from(frames, start, n)[i],
                start,
            ),
    decreases n,
{
    if n == 0 {
        Seq::empty()
    } else {
        let before = lemma_media_places(frames, start, n - 1);
        assert forall|k: int| #![trigger before.push(n - 1).contains(k)] before.push(
            n - 1,
        ).contains(k) <==> before.contains(k) || k == n - 1 by {
            lemma_pushed_place(before, n - 1, k);
        }
        lemma_pushed_place(before, n - 1, n - 1);
        if plays_from(frames[n - 1], start) {
            before.push(n - 1)
        } else {
            before
        }
    }
}

/// What playback hands out: every decoder configuration of the file, then
/// exactly the media frames none of whose times is before the start, each once
/// and in the order of the file, with their times counted from the start and
/// nothing else changed. The result says where these frames stand in the file.
pub proof fn law_playback_plays_from_start(frames: Seq<FrameModel>, start: int) -> (places: (
    Seq<int>,
    Seq<int>,
))
    requires
        0 <= start,
    ensures
        places_ascend(places.0, frames.len() as int),
        places_ascend(places.1, frames.len() as int),
        forall|k: int|
            0 <= k < frames.len() ==> (#[trigger] frames[k].config_frame <==> places.0.contains(k)),
        forall|k: int|
            0 <= k < frames.len() ==> (#[trigger] plays_from(frames[k], start)
                <==> places.1.contains(k)),
        played_frames(frames, start).len() == places.0.len() + places.1.len(),
        forall|i: int|
            0 <= i < places.0.len() ==> #[trigger] played_frames(frames, start)[i]
                == frames[places.0[i]],
        forall|i: int|
            places.0.len() <= i < places.0.len() + places.1.len() ==> counted_from(
                frames[places.1[i - places.0.len()]],
                #[trigger] played_frames(frames, start)[i],
                start,
            ),
{
    let n = frames.len() as int;
    let c = lemma_config_places(frames, n);
    let m = lemma_media_places(frames, start, n);
    let played = played_frames(frames, start);
    assert forall|i: int| 0 <= i < c.len() implies #[trigger] played[i] == frames[c[i]] by {
        assert(played[i] == configs_among(frames, n)[i]);
    }
    assert forall|i: int| c.len() <= i < c.len() + m.len() implies counted_from(
        frames[m[i - c.len()]],
        #[trigger] played[i],
        start,
    ) by {
        assert(played[i] == media_from(frames, start, n)[i - c.len()]);
    }
    assert forall|k: int| 0 <= k < n implies (#[trigger] frames[k].config_frame <==> c.contains(
        k,
    )) by {}
    assert forall|k: int| 0 <= k < n implies (#[trigger] plays_from(frames[k], start)
        <==> m.contains(k)) by {}
    (c, m)
}

/// No frame that is played ahead of the start of playback: what playback hands
/// out as media is one of the frames of the file, and it was not before the
/// start there.
pub proof fn law_nothing_before_start_is_played(frames: Seq<FrameModel>, start: int, i: int) -> (k:
    int)
    requires
        0 <= start,
        0 <= i < played_frames(frames, start).len(),
        !played_frames(frames, start)[i].config_frame,
    ensures
        0 <= k < frames.len(),
        !frames[k].config_frame,
        frames[k].timestamp >= start,
        frames[k].pts >= start,
        frames[k].dts >= start,
        counted_from(frames[k], played_frames(frames, start)[i], start),
{
    let (c, m) = law_playback_plays_from_start(frames, start);
    if i < c.len() {
        assert(c.contains(c[i]));
        assert(frames[c[i]].config_frame);
    }
    let k = m[i - c.len()];
    assert(m.contains(k));
    assert(plays_from(frames[k], start));
    k
}

/// Whether the frame at `k` is a key picture, or, where `key` is not asked
/// for, any media frame.
spec fn counts(frames: Seq<FrameModel>, key: bool, k: int) -> bool {
    0 <= k < frames.len() && if key {
        is_key_picture(frames[k])
    } else {
        !frames[k].config_frame
    }
}

proof fn lemma_last_found(frames: Seq<FrameModel>, key: bool, limit: int, n: int) -> (k: int)
    requires
        0 <= n <= frames.len(),
    ensures
        match last_time_before(frames, key, limit, n) {
            Some(t) => {
                &&& counts(frames, key, k) && k < n && begins_at(frames[k], t) && t <= limit
                &&& forall|i: int, u: int|
                    counts(frames, key, i) && i < n && #[trigger] begins_at(frames[i], u) && u
                        <= limit ==> u <= t
            },
            None => forall|i: int, u: int|
                counts(frames, key, i) && i < n && #[trigger] begins_at(frames[i], u) ==> u
                    > limit,
        },
    decreases n,
{
    if n == 0 {
        0
    } else {
        let before = lemma_last_found(frames, key, limit, n - 1);
        if last_time_before(frames, key, limit, n) == last_time_before(frames, key, limit, n - 1) {
            before
        } else {
            n - 1
        }
    }
}

proof fn lemma_first_found(frames: Seq<FrameModel>, key: bool, i: int) -> (k: int)
    requires
        0 <= i <= frames.len(),
    ensures
        match first_time(frames, key, i) {
            Some(t) => {
                &&& i <= k && counts(frames, key, k) && begins_at(frames[k], t)
                &&& forall|j: int| i <= j < k ==> !#[trigger] counts(frames, key, j)
            },
            None => forall|j: int| i <= j ==> !#[trigger] counts(frames, key, j),
        },
    decreases frames.len() - i,
{
    if i == frames.len() {
        i
    } else if is_candidate(frames[i], key) {
        assert(counts(frames, key, i));
        i
    } else {
        assert(!counts(frames, key, i));
        let k = lemma_first_found(frames, key, i + 1);
        k
    }
}

/// Playback from a point that a key picture precedes starts at a key picture:
/// at the latest that is not behind the point.
pub proof fn law_start_is_latest_key_picture(frames: Seq<FrameModel>, requested: int, k: int, t: int) -> (at:
    int)
    requires
        0 <= k < frames.len(),
        is_key_picture(frames[k]),
        begins_at(frames[k], t),
        t <= requested,
    ensures
        0 <= at < frames.len(),
        is_key_picture(frames[at]),
        begins_at(frames[at], playback_start(frames, requested)),
        t <= playback_start(frames, requested) <= requested,
{
    let at = lemma_last_found(frames, true, requested, frames.len() as int);
    assert(counts(frames, true, k));
    at
}

/// Playback from a point before the first key picture starts at that key
/// picture.
pub proof fn law_start_waits_for_key_picture(frames: Seq<FrameModel>, requested: int, k: int)
    requires
        0 <= k < frames.len(),
        is_key_picture(frames[k]),
        forall|i: int| 0 <= i < k ==> !is_key_picture(#[trigger] frames[i]),
        forall|i: int, u: int|
            0 <= i < frames.len() && is_key_picture(frames[i]) && #[trigger] begins_at(
                frames[i],
                u,
            ) ==> u > requested,
    ensures
        begins_at(frames[k], playback_start(frames, requested)),
{
    let n = frames.len() as int;
    let last = lemma_last_found(frames, true, requested, n);
    if let Some(t) = last_time_before(frames, true, requested, n) {
        assert(begins_at(frames[last], t));
        assert(false);
    }
    let first = lemma_first_found(frames, true, 0);
    assert(counts(frames, true, k));
    if first < k {
        assert(is_key_picture(frames[first]));
    }
}

/// Without key pictures, playback starts at the latest media frame that is not
/// behind the requested point, or, where there is none, at the first media
/// frame of the file, or at zero where there is no media at all.
pub proof fn law_start_without_key_pictures(frames: Seq<FrameModel>, requested: int) -> (at: int)
    requires
        forall|i: int| 0 <= i < frames.len() ==> !is_key_picture(#[trigger] frames[i]),
    ensures
        (forall|i: int| 0 <= i < frames.len() ==> (#[trigger] frames[i]).config_frame)
            ==> playback_start(frames, requested) == 0,
        (exists|i: int| 0 <= i < frames.len() && !(#[trigger] frames[i]).config_frame) ==> {
            let start = playback_start(frames, requested);
            &&& 0 <= at < frames.len() && !frames[at].config_frame
            &&& begins_at(frames[at], start)
            &&& start <= requested ==> forall|i: int, u: int|
                0 <= i < frames.len() && !frames[i].config_frame && #[trigger] begins_at(
                    frames[i],
                    u,
                ) && u <= requested ==> u <= start
            &&& start > requested ==> {
                &&& forall|i: int, u: int|
                    0 <= i < frames.len() && !frames[i].config_frame && #[trigger] begins_at(
                        frames[i],
                        u,
                    ) ==> u > requested
                &&& forall|i: int| 0 <= i < at ==> (#[trigger] frames[i]).config_frame
            }
        },
{
    let n = frames.len() as int;
    let k1 = lemma_last_found(frames, true, requested, n);
    let k2 = lemma_first_found(frames, true, 0);
    if let Some(t) = last_time_before(frames, true, requested, n) {
        assert(is_key_picture(frames[k1]));
    }
    if let Some(t) = first_time(frames, true, 0) {
        assert(is_key_picture(frames[k2]));
    }
    let last = lemma_last_found(frames, false, requested, n);
    let first = lemma_first_found(frames, false, 0);
    if let Some(t) = last_time_before(frames, false, requested, n) {
        assert(counts(frames, false, last));
        assert forall|i: int, u: int|
            0 <= i < frames.len() && !frames[i].config_frame && #[trigger] begins_at(frames[i], u)
                && u <= requested implies u <= t by {
            assert(counts(frames, false, i));
        }
        last
    } else {
        assert forall|i: int, u: int|
            0 <= i < frames.len() && !frames[i].config_frame && #[trigger] begins_at(
                frames[i],
                u,
            ) implies u > requested by {
            assert(counts(frames, false, i));
        }
        if exists|i: int| 0 <= i < frames.len() && !(#[trigger] frames[i]).config_frame {
            let i = choose|i: int| 0 <= i < frames.len() && !(#[trigger] frames[i]).config_frame;
            assert(counts(frames, false, i));
            assert forall|i: int| 0 <= i < first implies (#[trigger] frames[i]).config_frame by {
                assert(!counts(frames, false, i));
            }
        } else if let Some(t) = first_time(frames, false, 0) {
            assert(!frames[first].config_frame);
        }
        first
    }
}

/// Whether a track lasts `ms` whole milliseconds.
pub open spec fn lasts(t: TrackModel, ms: int) -> bool {
    t.timescale > 0 && ms * t.timescale <= t.duration * 1000 < (ms + 1) * t.timescale
}

proof fn lemma_track_ms(t: TrackModel, ms: int)
    requires
        lasts(t, ms),
    ensures
        ms == (t.duration * 1000) / t.timescale as int,
{
    let d = t.duration * 1000;
    let s = t.timescale as int;
    let q = d / s;
    assert(q * s <= d < (q + 1) * s) by (nonlinear_arith)
        requires
            s > 0,
            q == d / s,
    ;
    assert(q == ms) by (nonlinear_arith)
        requires
            s > 0,
            q * s <= d < (q + 1) * s,
            ms * s <= d < (ms + 1) * s,
    ;
}

proof fn lemma_longest(tracks: Seq<TrackModel>, n: int, k: int)
    requires
        0 <= k < n <= tracks.len(),
        forall|i: int|
            0 <= i < tracks.len() ==> (#[trigger] tracks[i]).duration * 1000 <= u64::MAX,
        tracks[k].timescale > 0,
        forall|i: int, a: int, b: int|
            0 <= i < tracks.len() && #[trigger] lasts(tracks[i], a) && #[trigger] lasts(
                tracks[k],
                b,
            ) ==> a <= b,
    ensures
        longest_track(tracks, n) is Some,
        lasts(tracks[k], longest_track(tracks, n)->0),
    decreases n,
{
    let t = tracks[n - 1];
    let tk = tracks[k];
    let b = tk.duration * 1000 / tk.timescale as int;
    lemma_has_ms(tk);
    assert(t.duration * 1000 <= u64::MAX);
    assert(tk.duration * 1000 <= u64::MAX);
    if t.timescale > 0 {
        lemma_has_ms(t);
    }
    if k < n - 1 {
        lemma_longest(tracks, n - 1, k);
        lemma_track_ms(tk, longest_track(tracks, n - 1)->0);
    } else {
        lemma_longest_below(tracks, n - 1, k);
    }
}

proof fn lemma_has_ms(t: TrackModel)
    requires
        t.timescale > 0,
    ensures
        lasts(t, t.duration * 1000 / t.timescale as int),
{
    let d = t.duration * 1000;
    let s = t.timescale as int;
    let q = d / s;
    assert(q * s <= d < (q + 1) * s) by (nonlinear_arith)
        requires
            s > 0,
            q == d / s,
    ;
}

proof fn lemma_longest_below(tracks: Seq<TrackModel>, n: int, k: int)
    requires
        0 <= n <= k < tracks.len(),
        forall|i: int|
            0 <= i < tracks.len() ==> (#[trigger] tracks[i]).duration * 1000 <= u64::MAX,
        tracks[k].timescale > 0,
        forall|i: int, a: int, b: int|
            0 <= i < tracks.len() && #[trigger] lasts(tracks[i], a) && #[trigger] lasts(
                tracks[k],
                b,
            ) ==> a <= b,
    ensures
        longest_track(tracks, n) matches Some(ms) ==> ms <= tracks[k].duration * 1000
            / tracks[k].timescale as int,
    decreases n,
{
    if n > 0 {
        lemma_longest_below(tracks, n - 1, k);
        lemma_has_ms(tracks[k]);
        assert(tracks[n - 1].duration * 1000 <= u64::MAX);
        if tracks[n - 1].timescale > 0 {
            lemma_has_ms(tracks[n - 1]);
        }
    }
}

/// A file lasts as long as the longest of its tracks.
pub proof fn law_file_lasts_as_its_longest_track(
    tracks: Seq<TrackModel>,
    frames: Seq<FrameModel>,
    k: int,
)
    requires
        0 <= k < tracks.len(),
        forall|i: int|
            0 <= i < tracks.len() ==> (#[trigger] tracks[i]).duration * 1000 <= u64::MAX,
        tracks[k].timescale > 0,
        forall|i: int, a: int, b: int|
            0 <= i < tracks.len() && #[trigger] lasts(tracks[i], a) && #[trigger] lasts(
                tracks[k],
                b,
            ) ==> a <= b,
    ensures
        lasts(tracks[k], asset_duration(tracks, frames)),
{
    lemma_longest(tracks, tracks.len() as int, k);
}

proof fn lemma_latest(frames: Seq<FrameModel>, n: int)
    requires
        0 <= n <= frames.len(),
    ensures
        forall|i: int|
            0 <= i < n && !(#[trigger] frames[i]).config_frame ==> frames[i].pts <= latest_time(
                frames,
                n,
            ) && frames[i].dts <= latest_time(frames, n),
        latest_time(frames, n) == 0 || exists|i: int|
            0 <= i < n && !(#[trigger] frames[i]).config_frame && (frames[i].pts == latest_time(
                frames,
                n,
            ) || frames[i].dts == latest_time(frames, n)),
    decreases n,
{
    if n > 0 {
        lemma_latest(frames, n - 1);
        if latest_time(frames, n) != latest_time(frames, n - 1) {
            assert(!frames[n - 1].config_frame);
        }
    }
}

/// A file whose tracks have no time base lasts up to the latest time of its
/// media.
pub proof fn law_file_without_clock_lasts_as_its_media(
    tracks: Seq<TrackModel>,
    frames: Seq<FrameModel>,
)
    requires
        forall|i: int| 0 <= i < tracks.len() ==> (#[trigger] tracks[i]).timescale == 0,
    ensures
        forall|i: int|
            0 <= i < frames.len() && !(#[trigger] frames[i]).config_frame ==> frames[i].pts
                <= asset_duration(tracks, frames) && frames[i].dts <= asset_duration(
                tracks,
                frames,
            ),
        asset_duration(tracks, frames) == 0 || exists|i: int|
            0 <= i < frames.len() && !(#[trigger] frames[i]).config_frame && (frames[i].pts
                == asset_duration(tracks, frames) || frames[i].dts == asset_duration(
                tracks,
                frames,
            )),
{
    lemma_latest(frames, frames.len() as int);
    lemma_no_clock(tracks, tracks.len() as int);
}

proof fn lemma_no_clock(tracks: Seq<TrackModel>, n: int)
    requires
        0 <= n <= tracks.len(),
        forall|i: int| 0 <= i < tracks.len() ==> (#[trigger] tracks[i]).timescale == 0,
    ensures
        longest_track(tracks, n) is None,
    decreases n,
{
    if n > 0 {
        lemma_no_clock(tracks, n - 1);
    }
}

/// The part of a file that is played lasts until the end of the file: what
/// precedes the start is not counted.
pub proof fn law_part_lasts_until_the_end(duration: int, start: int)
    requires
        0 <= start,
        0 <= duration,
    ensures
        start <= duration ==> start + less(duration, start) == duration,
        start > duration ==> less(duration, start) == 0,
{
}

} // verus!
