//! What a parsed file is: the boxes of a buffer, the tracks of a file, and the
//! frames that replay it.
use vstd::prelude::*;
use crate::bytes::{be32, be64, lemma_be64, lemma_u32_in, u64_at};
use crate::media::{CodecId, FrameModel, FrameType, PayloadFormat};
use crate::mp4::boxes::{BoxModel, Mp4Error, TRAK, boxes_of};
use crate::mp4::demuxer::{
    ParsedModel, TrackModel, config_frame_of, config_frames, data_frame_of, data_frames,
    grouped_frames, interleaved_frames, movie_tracks, ordered_frames, playback_order, pts_keys,
    sample_indices, trak_model, with_track,
};
use crate::mp4::entries::TrackKind;
use crate::mp4::layout::SampleModel;

verus! {

broadcast use crate::bytes::group_be_len;

// ── boxes ───────────────────────────────────────────────────────────────

proof fn lemma_u64_in(a: Seq<u8>, n: int, b: Seq<u8>)
    requires
        0 <= n < 0x1_0000_0000_0000_0000,
    ensures
        u64_at(a + be64(n) + b, a.len() as int) == n,
{
    lemma_be64(n);
    let s = a + be64(n) + b;
    let k = a.len() as int;
    assert forall|j: int| 0 <= j < 8 implies s[k + j] == #[trigger] be64(n)[j] by {}
    assert(u64_at(s, k) == u64_at(be64(n), 0));
}

/// A buffer is read box by box: a box is its size, its type and its body; a
/// size of 1 stands for a 64-bit one behind the type. The size counts the
/// header. What follows is read in the same way.
pub proof fn law_box_is_read(kind: u32, body: Seq<u8>, rest: Seq<u8>)
    ensures
        8 + body.len() <= u32::MAX ==> {
            let all = boxes_of(be32(8 + body.len() as int) + be32(kind as int) + body + rest);
            match boxes_of(rest) {
                Ok(tail) => all == Ok::<Seq<BoxModel>, Mp4Error>(
                    seq![BoxModel { kind, body }] + tail,
                ),
                Err(e) => all == Err::<Seq<BoxModel>, Mp4Error>(e),
            }
        },
        16 + body.len() <= u64::MAX ==> {
            let all = boxes_of(
                be32(1) + be32(kind as int) + be64(16 + body.len() as int) + body + rest,
            );
            match boxes_of(rest) {
                Ok(tail) => all == Ok::<Seq<BoxModel>, Mp4Error>(
                    seq![BoxModel { kind, body }] + tail,
                ),
                Err(e) => all == Err::<Seq<BoxModel>, Mp4Error>(e),
            }
        },
{
    if 8 + body.len() <= u32::MAX {
        let n = 8 + body.len() as int;
        let data = be32(n) + be32(kind as int) + body + rest;
        assert(data =~= Seq::<u8>::empty() + be32(n) + (be32(kind as int) + body + rest));
        lemma_u32_in(Seq::empty(), n, be32(kind as int) + body + rest);
        assert(data =~= be32(n) + be32(kind as int) + (body + rest));
        lemma_u32_in(be32(n), kind as int, body + rest);
        assert(data.skip(n) =~= rest);
        assert(data.subrange(8, n) =~= body);
    }
    if 16 + body.len() <= u64::MAX {
        let n = 16 + body.len() as int;
        let data = be32(1) + be32(kind as int) + be64(n) + body + rest;
        assert(data =~= Seq::<u8>::empty() + be32(1) + (be32(kind as int) + be64(n) + body + rest));
        lemma_u32_in(Seq::empty(), 1, be32(kind as int) + be64(n) + body + rest);
        assert(data =~= be32(1) + be32(kind as int) + (be64(n) + body + rest));
        lemma_u32_in(be32(1), kind as int, be64(n) + body + rest);
        assert(data =~= be32(1) + be32(kind as int) + be64(n) + (body + rest));
        lemma_u64_in(be32(1) + be32(kind as int), n, body + rest);
        assert(data.skip(n) =~= rest);
        assert(data.subrange(16, n) =~= body);
    }
}

// ── tracks ──────────────────────────────────────────────────────────────

/// Whether the track at a place among those of a movie is `t`.
spec fn stands(tracks: Seq<ParsedModel>, t: ParsedModel) -> bool {
    exists|i: int| 0 <= i < tracks.len() && #[trigger] tracks[i] == t
}

proof fn lemma_track_added(tracks: Seq<ParsedModel>, t: ParsedModel, u: ParsedModel)
    requires
        forall|i: int, j: int|
            0 <= i < j < tracks.len() ==> (#[trigger] tracks[i]).track.track_id < (
            #[trigger] tracks[j]).track.track_id,
    ensures
        stands(with_track(tracks, t), u) <==> u == t || (stands(tracks, u) && u.track.track_id
            != t.track.track_id),
    decreases tracks.len(),
{
    let w = with_track(tracks, t);
    if tracks.len() == 0 {
        assert(w[0] == t);
    } else {
        let n = tracks.len() as int;
        let last = tracks.last();
        assert(last == tracks[n - 1]);
        if last.track.track_id < t.track.track_id {
            assert(w[n] == t);
            if stands(tracks, u) {
                let i = choose|i: int| 0 <= i < n && #[trigger] tracks[i] == u;
                assert(w[i] == u);
                assert(tracks[i].track.track_id <= last.track.track_id) by {
                    if i < n - 1 {
                        assert(tracks[i].track.track_id < tracks[n - 1].track.track_id);
                    }
                }
            }
            if stands(w, u) {
                let i = choose|i: int| 0 <= i < w.len() && #[trigger] w[i] == u;
                if i < n {
                    assert(tracks[i] == u);
                    if i < n - 1 {
                        assert(tracks[i].track.track_id < tracks[n - 1].track.track_id);
                    }
                }
            }
        } else if last.track.track_id == t.track.track_id {
            assert(w[n - 1] == t);
            if stands(tracks, u) && u.track.track_id != t.track.track_id {
                let i = choose|i: int| 0 <= i < n && #[trigger] tracks[i] == u;
                assert(w[i] == u);
            }
            if stands(w, u) {
                let i = choose|i: int| 0 <= i < w.len() && #[trigger] w[i] == u;
                if i < n - 1 {
                    assert(tracks[i] == u);
                    assert(tracks[i].track.track_id < tracks[n - 1].track.track_id);
                }
            }
        } else {
            let front = tracks.drop_last();
            lemma_track_added(front, t, u);
            let v = with_track(front, t);
            if stands(v, u) {
                let i = choose|i: int| 0 <= i < v.len() && #[trigger] v[i] == u;
                assert(w[i] == u);
            }
            if u == last {
                assert(w[v.len() as int] == u);
            }
            if stands(w, u) {
                let i = choose|i: int| 0 <= i < w.len() && #[trigger] w[i] == u;
                if i < v.len() {
                    assert(v[i] == u);
                }
            }
            if stands(tracks, u) {
                let i = choose|i: int| 0 <= i < n && #[trigger] tracks[i] == u;
                if i < n - 1 {
                    assert(front[i] == u);
                }
            }
            if stands(front, u) {
                let i = choose|i: int| 0 <= i < front.len() && #[trigger] front[i] == u;
                assert(tracks[i] == u);
            }
            assert(tracks[n - 1] == last);
        }
    }
}

/// Whether a box describes a track that can be played and that has the given
/// number.
pub open spec fn describes(b: BoxModel, file: Seq<u8>, number: u32) -> bool {
    &&& b.kind == TRAK
    &&& trak_model(b.body, file) matches Ok(Some(u)) && u.track.track_id == number
}

/// Whether the box at `i` describes the track `t`, and no box behind it a track
/// of the same number.
pub open spec fn describes_last(moov: Seq<BoxModel>, file: Seq<u8>, i: int, t: ParsedModel) -> bool {
    &&& 0 <= i < moov.len()
    &&& moov[i].kind == TRAK
    &&& trak_model(moov[i].body, file) == Ok::<Option<ParsedModel>, Mp4Error>(Some(t))
    &&& forall|j: int|
        i < j < moov.len() ==> !describes(#[trigger] moov[j], file, t.track.track_id)
}

proof fn lemma_tracks_stand(moov: Seq<BoxModel>, file: Seq<u8>, t: ParsedModel)
    ensures
        stands(movie_tracks(moov, file), t) <==> exists|i: int| describes_last(moov, file, i, t),
    decreases moov.len(),
{
    let tracks = movie_tracks(moov, file);
    if moov.len() == 0 {
        assert(tracks.len() == 0);
    } else {
        let front = moov.drop_last();
        let n = moov.len() - 1;
        let before = movie_tracks(front, file);
        lemma_tracks_stand(front, file, t);
        crate::mp4::demuxer::lemma_movie_tracks_ascending(front, file);
        let playable = moov[n].kind == TRAK && trak_model(moov[n].body, file) is Ok && trak_model(
            moov[n].body,
            file,
        )->Ok_0 is Some;
        if playable {
            let last = trak_model(moov[n].body, file)->Ok_0->0;
            lemma_track_added(before, last, t);
            if t == last {
                assert(describes_last(moov, file, n, t));
            } else if t.track.track_id != last.track.track_id {
                lemma_describes_front(moov, file, t, n);
            } else {
                assert forall|i: int| !describes_last(moov, file, i, t) by {
                    if describes_last(moov, file, i, t) && i < n {
                        assert(describes(moov[n], file, t.track.track_id));
                    }
                }
            }
        } else {
            lemma_describes_front(moov, file, t, n);
        }
    }
}

proof fn lemma_describes_front(moov: Seq<BoxModel>, file: Seq<u8>, t: ParsedModel, n: int)
    requires
        moov.len() == n + 1,
        0 <= n,
        !describes(moov[n], file, t.track.track_id),
    ensures
        (exists|i: int| describes_last(moov, file, i, t)) <==> exists|i: int|
            describes_last(moov.drop_last(), file, i, t),
{
    let front = moov.drop_last();
    assert forall|i: int| describes_last(moov, file, i, t) <==> describes_last(
        front,
        file,
        i,
        t,
    ) by {
        if describes_last(moov, file, i, t) {
            assert(i < n);
            assert forall|j: int| i < j < front.len() implies !describes(
                #[trigger] front[j],
                file,
                t.track.track_id,
            ) by {
                assert(front[j] == moov[j]);
            }
        }
        if describes_last(front, file, i, t) {
            assert forall|j: int| i < j < moov.len() implies !describes(
                #[trigger] moov[j],
                file,
                t.track.track_id,
            ) by {
                if j < n {
                    assert(front[j] == moov[j]);
                }
            }
        }
    }
    if exists|i: int| describes_last(moov, file, i, t) {
        let i = choose|i: int| describes_last(moov, file, i, t);
        assert(describes_last(front, file, i, t));
    }
    if exists|i: int| describes_last(front, file, i, t) {
        let i = choose|i: int| describes_last(front, file, i, t);
        assert(describes_last(moov, file, i, t));
    }
}

/// The tracks of a file are those that its track boxes describe and that can be
/// played, of several with one number the last; they stand in ascending order
/// of their numbers, each number once.
pub proof fn law_file_has_the_tracks_of_its_boxes(
    moov: Seq<BoxModel>,
    file: Seq<u8>,
    t: ParsedModel,
)
    ensures
        movie_tracks(moov, file).contains(t) <==> exists|i: int|
            describes_last(moov, file, i, t),
        forall|i: int, j: int|
            0 <= i < j < movie_tracks(moov, file).len() ==> (#[trigger] movie_tracks(
                moov,
                file,
            )[i]).track.track_id < (#[trigger] movie_tracks(moov, file)[j]).track.track_id,
{
    let tracks = movie_tracks(moov, file);
    lemma_tracks_stand(moov, file, t);
    crate::mp4::demuxer::lemma_movie_tracks_ascending(moov, file);
    if tracks.contains(t) {
        let i = choose|i: int| 0 <= i < tracks.len() && tracks[i] == t;
        assert(tracks[i] == t);
    }
}

// ── frames ──────────────────────────────────────────────────────────────

/// Whether a frame carries a sample of a track behind an FLV tag header.
pub open spec fn carries(f: FrameModel, t: TrackModel, s: SampleModel) -> bool {
    &&& f.track_id == t.track_id
    &&& f.codec == t.codec
    &&& f.timestamp == s.pts_ms
    &&& f.pts == s.pts_ms
    &&& f.dts == s.dts_ms
    &&& !f.config_frame
    &&& f.payload_format == PayloadFormat::Flv
    &&& t.handler == TrackKind::Video ==> f.frame_type == FrameType::Video && f.key_frame
        == s.is_sync
    &&& t.handler == TrackKind::Video && t.codec == CodecId::H264 ==> f.data == seq![
        0x17u8,
        1,
        0,
        0,
        0,
    ] + s.data
    &&& t.handler == TrackKind::Video && t.codec == CodecId::H265 && s.is_sync ==> f.data == seq![
        0x1cu8,
        1,
        0,
        0,
        0,
    ] + s.data
    &&& t.handler == TrackKind::Video && t.codec == CodecId::H265 && !s.is_sync ==> f.data == seq![
        0x2cu8,
        1,
        0,
        0,
        0,
    ] + s.data
    &&& t.handler == TrackKind::Audio ==> f.frame_type == FrameType::Audio && f.data == seq![
        0xafu8,
        1,
    ] + s.data
}

/// Whether a frame carries the decoder configuration of a track behind an FLV
/// tag header.
pub open spec fn carries_config(f: FrameModel, t: TrackModel) -> bool {
    &&& f.track_id == t.track_id
    &&& f.codec == t.codec
    &&& f.timestamp == 0 && f.pts == 0 && f.dts == 0
    &&& f.config_frame
    &&& f.payload_format == PayloadFormat::Flv
    &&& t.handler == TrackKind::Video ==> f.frame_type == FrameType::Video && f.key_frame
    &&& t.handler == TrackKind::Video && t.codec == CodecId::H264 ==> f.data == seq![
        0x17u8,
        0,
        0,
        0,
        0,
    ] + t.config
    &&& t.handler == TrackKind::Video && t.codec == CodecId::H265 ==> f.data == seq![
        0x1cu8,
        0,
        0,
        0,
        0,
    ] + t.config
    &&& t.handler == TrackKind::Audio ==> f.frame_type == FrameType::Audio && f.data == seq![
        0xafu8,
        0,
    ] + t.config
}

/// A sample of a track that is video or audio is carried by a frame, and so is
/// its configuration where it has one.
pub proof fn law_samples_are_carried(t: TrackModel, s: SampleModel)
    requires
        t.handler != TrackKind::Other,
    ensures
        data_frame_of(t, s) is Some,
        carries(data_frame_of(t, s)->0, t, s),
        config_frame_of(t) is Some <==> t.config.len() > 0,
        t.config.len() > 0 ==> carries_config(config_frame_of(t)->0, t),
{
}

proof fn lemma_data_frames(p: ParsedModel, n: int)
    requires
        0 <= n <= p.samples.len(),
        p.track.handler != TrackKind::Other,
    ensures
        data_frames(p, n).len() == n,
        forall|k: int|
            0 <= k < n ==> carries(#[trigger] data_frames(p, n)[k], p.track, p.samples[k]),
    decreases n,
{
    if n > 0 {
        lemma_data_frames(p, n - 1);
        law_samples_are_carried(p.track, p.samples[n - 1]);
    }
}

/// Frames one for each configuration and each sample.
pub open spec fn config_count(t: TrackModel) -> int {
    if t.config.len() > 0 {
        1
    } else {
        0
    }
}

/// Whether every track is video or audio.
pub open spec fn tracks_play(tracks: Seq<ParsedModel>) -> bool {
    forall|i: int| 0 <= i < tracks.len() ==> (#[trigger] tracks[i]).track.handler != TrackKind::Other
}

/// Whether `base` says where the frames of each track begin when the frames of
/// one track follow those of the other.
pub open spec fn frames_begin(tracks: Seq<ParsedModel>, base: Seq<int>) -> bool {
    &&& base.len() == tracks.len() + 1
    &&& base[0] == 0
    &&& forall|i: int|
        0 <= i < tracks.len() ==> #[trigger] base[i + 1] == base[i] + config_count(tracks[i].track)
            + tracks[i].samples.len()
}

proof fn lemma_base_ascends(tracks: Seq<ParsedModel>, base: Seq<int>, i: int, j: int)
    requires
        frames_begin(tracks, base),
        0 <= i <= j <= tracks.len(),
    ensures
        0 <= base[i] <= base[j],
    decreases j,
{
    if j > 0 {
        lemma_base_ascends(tracks, base, if i < j { i } else { j - 1 }, j - 1);
        assert(base[(j - 1) + 1] == base[j - 1] + config_count(tracks[j - 1].track)
            + tracks[j - 1].samples.len());
    }
}

proof fn lemma_grouped(tracks: Seq<ParsedModel>, base: Seq<int>, n: int, i: int)
    requires
        tracks_play(tracks),
        frames_begin(tracks, base),
        0 <= n <= tracks.len(),
        0 <= i,
    ensures
        grouped_frames(tracks, n).len() == base[n],
        i < n && tracks[i].track.config.len() > 0 ==> carries_config(
            grouped_frames(tracks, n)[base[i]],
            tracks[i].track,
        ),
        i < n ==> forall|k: int|
            0 <= k < tracks[i].samples.len() ==> carries(
                #[trigger] grouped_frames(tracks, n)[base[i] + config_count(tracks[i].track) + k],
                tracks[i].track,
                tracks[i].samples[k],
            ),
    decreases n,
{
    if n > 0 {
        lemma_grouped(tracks, base, n - 1, i);
        let t = tracks[n - 1];
        assert(t.track.handler != TrackKind::Other);
        assert(base[(n - 1) + 1] == base[n - 1] + config_count(t.track) + t.samples.len());
        lemma_data_frames(t, t.samples.len() as int);
        let before = grouped_frames(tracks, n - 1);
        let all = grouped_frames(tracks, n);
        let c = config_count(t.track);
        if i < n - 1 {
            lemma_base_ascends(tracks, base, 0, i);
            lemma_base_ascends(tracks, base, i + 1, n - 1);
            assert(base[i + 1] == base[i] + config_count(tracks[i].track)
                + tracks[i].samples.len());
            if tracks[i].track.config.len() > 0 {
                assert(all[base[i]] == before[base[i]]);
            }
            assert forall|k: int| 0 <= k < tracks[i].samples.len() implies carries(
                #[trigger] all[base[i] + config_count(tracks[i].track) + k],
                tracks[i].track,
                tracks[i].samples[k],
            ) by {
                let at = base[i] + config_count(tracks[i].track) + k;
                assert(all[at] == before[at]);
            }
        } else if i == n - 1 {
            if t.track.config.len() > 0 {
                assert(config_frame_of(t.track) is Some);
                assert(all[base[i]] == config_frame_of(t.track)->0);
            }
            assert forall|k: int| 0 <= k < t.samples.len() implies carries(
                #[trigger] all[base[i] + c + k],
                t.track,
                t.samples[k],
            ) by {
                assert(all[base[i] + c + k] == data_frames(t, t.samples.len() as int)[k]);
            }
        }
    }
}

/// The frames of a file, track by track: of each track its configuration first,
/// then its samples in order, and nothing else.
pub proof fn law_frames_come_track_by_track(tracks: Seq<ParsedModel>, base: Seq<int>, i: int)
    requires
        tracks_play(tracks),
        frames_begin(tracks, base),
        0 <= i < tracks.len(),
    ensures
        ({
            let frames = grouped_frames(tracks, tracks.len() as int);
            let t = tracks[i];
            &&& frames.len() == base[tracks.len() as int]
            &&& t.track.config.len() > 0 ==> carries_config(frames[base[i]], t.track)
            &&& forall|k: int|
                0 <= k < t.samples.len() ==> carries(
                    #[trigger] frames[base[i] + config_count(t.track) + k],
                    t.track,
                    t.samples[k],
                )
        }),
{
    lemma_grouped(tracks, base, tracks.len() as int, i);
}

proof fn lemma_index_of(tracks: Seq<ParsedModel>, n: int, t: int, k: int) -> (i: int)
    requires
        0 <= t < n <= tracks.len(),
        0 <= k < tracks[t].samples.len(),
    ensures
        0 <= i < sample_indices(tracks, n).len(),
        sample_indices(tracks, n)[i] == (t, k),
    decreases n,
{
    let before = sample_indices(tracks, n - 1);
    if t == n - 1 {
        let i = before.len() + k;
        assert(sample_indices(tracks, n)[i] == (t, k));
        i
    } else {
        let i = lemma_index_of(tracks, n - 1, t, k);
        assert(sample_indices(tracks, n)[i] == before[i]);
        i
    }
}

proof fn lemma_indices_valid(tracks: Seq<ParsedModel>, n: int)
    requires
        0 <= n <= tracks.len(),
    ensures
        forall|i: int|
            0 <= i < sample_indices(tracks, n).len() ==> {
                let a = #[trigger] sample_indices(tracks, n)[i];
                0 <= a.0 < n && 0 <= a.1 < tracks[a.0].samples.len()
            },
    decreases n,
{
    if n > 0 {
        lemma_indices_valid(tracks, n - 1);
        let before = sample_indices(tracks, n - 1);
        assert forall|i: int| 0 <= i < sample_indices(tracks, n).len() implies {
            let a = #[trigger] sample_indices(tracks, n)[i];
            0 <= a.0 < n && 0 <= a.1 < tracks[a.0].samples.len()
        } by {
            if i < before.len() {
                assert(sample_indices(tracks, n)[i] == before[i]);
            } else {
                assert(sample_indices(tracks, n)[i] == (n - 1, i - before.len()));
            }
        }
    }
}

proof fn lemma_ordered(tracks: Seq<ParsedModel>, at: Seq<(int, int)>, p: Seq<int>, n: int)
    requires
        tracks_play(tracks),
        0 <= n <= p.len(),
        forall|i: int| 0 <= i < p.len() ==> 0 <= #[trigger] p[i] < at.len(),
        forall|i: int|
            0 <= i < at.len() ==> 0 <= (#[trigger] at[i]).0 < tracks.len() && 0 <= at[i].1
                < tracks[at[i].0].samples.len(),
    ensures
        ordered_frames(tracks, at, p, n).len() == n,
        forall|i: int|
            0 <= i < n ==> carries(
                #[trigger] ordered_frames(tracks, at, p, n)[i],
                tracks[at[p[i]].0].track,
                tracks[at[p[i]].0].samples[at[p[i]].1],
            ),
    decreases n,
{
    if n > 0 {
        lemma_ordered(tracks, at, p, n - 1);
        let a = at[p[n - 1]];
        assert(0 <= p[n - 1] < at.len());
        assert(tracks[a.0].track.handler != TrackKind::Other);
        law_samples_are_carried(tracks[a.0].track, tracks[a.0].samples[a.1]);
    }
}

/// A list of as many places as there are, each once, has every place.
proof fn lemma_all_places(p: Seq<int>, x: int)
    requires
        forall|i: int| 0 <= i < p.len() ==> 0 <= #[trigger] p[i] < p.len(),
        forall|i: int, j: int|
            0 <= i < j < p.len() ==> #[trigger] p[i] != #[trigger] p[j],
        0 <= x < p.len(),
    ensures
        p.contains(x),
{
    let n = p.len() as int;
    assert(p.no_duplicates());
    p.unique_seq_to_set();
    let all = vstd::set_lib::set_int_range(0, n);
    vstd::set_lib::lemma_int_range(0, n);
    assert(p.to_set().subset_of(all)) by {
        assert forall|y: int| p.to_set().contains(y) implies all.contains(y) by {
            let i = choose|i: int| 0 <= i < p.len() && p[i] == y;
            assert(0 <= p[i] < n);
        }
    }
    vstd::set_lib::lemma_subset_equality(p.to_set(), all);
    assert(p.to_set().contains(x));
}

proof fn lemma_configs(tracks: Seq<ParsedModel>, n: int)
    requires
        tracks_play(tracks),
        0 <= n <= tracks.len(),
    ensures
        forall|i: int|
            0 <= i < config_frames(tracks, n).len() ==> (#[trigger] config_frames(
                tracks,
                n,
            )[i]).config_frame,
        forall|t: int|
            0 <= t < n && (#[trigger] tracks[t]).track.config.len() > 0 ==> exists|i: int|
                0 <= i < config_frames(tracks, n).len() && carries_config(
                    #[trigger] config_frames(tracks, n)[i],
                    tracks[t].track,
                ),
    decreases n,
{
    if n > 0 {
        lemma_configs(tracks, n - 1);
        let before = config_frames(tracks, n - 1);
        let all = config_frames(tracks, n);
        let last = tracks[n - 1].track;
        assert(last.handler != TrackKind::Other);
        assert forall|i: int| 0 <= i < all.len() implies (#[trigger] all[i]).config_frame by {
            if i < before.len() {
                assert(all[i] == before[i]);
            }
        }
        assert forall|t: int|
            0 <= t < n && (#[trigger] tracks[t]).track.config.len() > 0 implies exists|i: int|
            0 <= i < all.len() && carries_config(#[trigger] all[i], tracks[t].track) by {
            if t < n - 1 {
                let i = choose|i: int|
                    0 <= i < before.len() && carries_config(
                        #[trigger] before[i],
                        tracks[t].track,
                    );
                assert(all[i] == before[i]);
                assert(carries_config(all[i], tracks[t].track));
            } else {
                assert(all[before.len() as int] == config_frame_of(last)->0);
                assert(carries_config(all[before.len() as int], last));
            }
        }
    }
}

/// The frames of a file for replay: first the configurations of its tracks,
/// then the samples of all tracks, in ascending order of the times at which
/// they play. Here `c` counts the configurations.
pub proof fn law_frames_are_interleaved(tracks: Seq<ParsedModel>, p: Seq<int>) -> (c: int)
    requires
        tracks_play(tracks),
        playback_order(tracks, p),
    ensures
        ({
            let frames = interleaved_frames(tracks, p);
            &&& 0 <= c <= frames.len()
            &&& forall|i: int| 0 <= i < c ==> (#[trigger] frames[i]).config_frame
            &&& forall|t: int|
                0 <= t < tracks.len() && (#[trigger] tracks[t]).track.config.len() > 0
                    ==> exists|i: int|
                    0 <= i < c && carries_config(#[trigger] frames[i], tracks[t].track)
            &&& forall|i: int| c <= i < frames.len() ==> !(#[trigger] frames[i]).config_frame
            &&& forall|i: int, j: int|
                c <= i < j < frames.len() ==> (#[trigger] frames[i]).pts <= (
                #[trigger] frames[j]).pts
            &&& frames.len() - c == sample_indices(tracks, tracks.len() as int).len()
            &&& forall|t: int, k: int|
                0 <= t < tracks.len() && 0 <= k < tracks[t].samples.len() ==> exists|i: int|
                    c <= i < frames.len() && carries(
                        #[trigger] frames[i],
                        tracks[t].track,
                        #[trigger] tracks[t].samples[k],
                    )
        }),
{
    let n = tracks.len() as int;
    let at = sample_indices(tracks, n);
    let keys = pts_keys(tracks, at);
    let configs = config_frames(tracks, n);
    let c = configs.len() as int;
    let media = ordered_frames(tracks, at, p, p.len() as int);
    let frames = interleaved_frames(tracks, p);
    lemma_indices_valid(tracks, n);
    lemma_ordered(tracks, at, p, p.len() as int);
    lemma_configs(tracks, n);
    assert forall|i: int| 0 <= i < c implies (#[trigger] frames[i]).config_frame by {
        assert(frames[i] == configs[i]);
    }
    assert forall|t: int|
        0 <= t < tracks.len() && (#[trigger] tracks[t]).track.config.len() > 0 implies exists|i: int|
        0 <= i < c && carries_config(#[trigger] frames[i], tracks[t].track) by {
        let i = choose|i: int|
            0 <= i < configs.len() && carries_config(#[trigger] configs[i], tracks[t].track);
        assert(frames[i] == configs[i]);
        assert(carries_config(frames[i], tracks[t].track));
    }
    assert forall|i: int| c <= i < frames.len() implies !(#[trigger] frames[i]).config_frame by {
        assert(frames[i] == media[i - c]);
    }
    assert forall|i: int, j: int| c <= i < j < frames.len() implies (#[trigger] frames[i]).pts <= (
    #[trigger] frames[j]).pts by {
        assert(frames[i] == media[i - c]);
        assert(frames[j] == media[j - c]);
        assert(0 <= p[i - c] < keys.len() && 0 <= p[j - c] < keys.len());
        let a = keys[p[i - c]];
        let b = keys[p[j - c]];
        assert(a.0 <= b.0);
    }
    assert forall|t: int, k: int|
        0 <= t < tracks.len() && 0 <= k < tracks[t].samples.len() implies exists|i: int|
        c <= i < frames.len() && carries(
            #[trigger] frames[i],
            tracks[t].track,
            #[trigger] tracks[t].samples[k],
        ) by {
        let x = lemma_index_of(tracks, n, t, k);
        lemma_all_places(p, x);
        let i = choose|i: int| 0 <= i < p.len() && p[i] == x;
        assert(at[p[i]] == (t, k));
        assert(frames[c + i] == media[i]);
        assert(carries(frames[c + i], tracks[t].track, tracks[t].samples[k]));
    }
    c
}

} // verus!
