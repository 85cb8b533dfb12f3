//! What is found in the boxes of a file, and when it is refused.
use vstd::prelude::*;
use crate::bytes::{be32, group_be_len, lemma_u32_in, u32_at};
use crate::media::{CodecId, FrameModel};
use crate::mp4::boxes::{
    BoxModel, CO64, HDLR, MDAT, MDHD, MDIA, MINF, MOOF, MOOV, MVHD, Mp4Error, STBL, STCO, STSC,
    STSD, STSZ, STTS, TFHD, TKHD, TRAK, boxes_of, last_box,
};
use crate::mp4::demuxer::{
    HeadModel, ParsedModel, TrackModel, chunk_offsets, file_tracks, hdlr_kind, mdhd_duration,
    mdhd_timescale, movie_tracks, mvhd_timescale, playback_order, pts_keys, sample_indices,
    sample_tables, tkhd_track_id, track_head, with_params,
};
use crate::mp4::entries::{TrackKind, stsd_codec};
use crate::mp4::fragmented_demuxer::{
    BoxView, FragmentDefaults, FragmentError, FragmentTrackModel, RunModel, bit_set, child_span,
    descendant_span, field32, first_span, init_entry, init_media, init_segment_tracks, init_track,
    init_tracks, record_len, record_size, run_frames, run_header, segment_frames, span_body, spans,
    tkhd_height, tkhd_width, track_index, traf_frames, versioned_offset,
};
use crate::mp4::layout_laws::{lemma_word_at, words};
use crate::mp4::tables::{stsz_sizes, stts_durations};

verus! {

// ── boxes ───────────────────────────────────────────────────────────────

/// Of several boxes of a type the last one counts.
pub proof fn law_last_box_counts(boxes: Seq<BoxModel>, kind: u32, i: int)
    requires
        -1 <= i < boxes.len(),
        i >= 0 ==> boxes[i].kind == kind,
        forall|j: int| i < j < boxes.len() ==> (#[trigger] boxes[j]).kind != kind,
    ensures
        last_box(boxes, kind) == if i >= 0 {
            Some(boxes[i].body)
        } else {
            None
        },
    decreases boxes.len(),
{
    if boxes.len() > 0 && i < boxes.len() - 1 {
        let front = boxes.drop_last();
        assert forall|j: int| i < j < front.len() implies (#[trigger] front[j]).kind != kind by {
            assert(front[j] == boxes[j]);
        }
        if i >= 0 {
            assert(front[i] == boxes[i]);
        }
        assert(boxes[boxes.len() - 1].kind != kind);
        law_last_box_counts(front, kind, i);
    }
}

/// The header boxes of movies, tracks and media have the time base and the
/// number of a track in their fourth word, the duration in their fifth; what is
/// too short to say stands for 1000, 90000 and 0.
pub proof fn law_header_words_are_read(list: Seq<u32>, rest: Seq<u8>, short: Seq<u8>)
    requires
        list.len() == 5,
        short.len() < 16,
    ensures
        ({
            let b = words(list) + rest;
            &&& mvhd_timescale(b) == list[3]
            &&& tkhd_track_id(b) == list[3]
            &&& mdhd_timescale(b) == list[3]
            &&& mdhd_duration(b) == list[4]
        }),
        mvhd_timescale(short) == 1000,
        mdhd_timescale(short) == 90000,
        tkhd_track_id(short) == 0,
        mdhd_duration(short) == 0,
{
    let none = Seq::<u8>::empty();
    let b = words(list) + rest;
    lemma_word_at(none, list, 3);
    lemma_word_at(none, list, 4);
    assert(none + words(list) =~= words(list));
    assert(b[12] == words(list)[12] && b[13] == words(list)[13] && b[14] == words(list)[14] && b[15]
        == words(list)[15]);
    assert(b[16] == words(list)[16] && b[17] == words(list)[17] && b[18] == words(list)[18] && b[19]
        == words(list)[19]);
}

/// The third word of a handler box names what a track carries: `vide` or
/// `soun`, and nothing that is played otherwise.
pub proof fn law_handler_is_read(list: Seq<u32>, rest: Seq<u8>)
    requires
        list.len() == 3,
    ensures
        ({
            let b = words(list) + rest;
            let vide = 0x76 * 0x100_0000 + 0x69 * 0x1_0000 + 0x64 * 0x100 + 0x65;
            let soun = 0x73 * 0x100_0000 + 0x6f * 0x1_0000 + 0x75 * 0x100 + 0x6e;
            &&& hdlr_kind(b) == TrackKind::Video <==> list[2] == vide
            &&& hdlr_kind(b) == TrackKind::Audio <==> list[2] == soun
        }),
{
    let none = Seq::<u8>::empty();
    let b = words(list) + rest;
    lemma_word_at(none, list, 2);
    assert(none + words(list) =~= words(list));
    assert(b[8] == words(list)[8] && b[9] == words(list)[9] && b[10] == words(list)[10] && b[11]
        == words(list)[11]);
}

// ── tracks ──────────────────────────────────────────────────────────────

/// The head of a track is what its own boxes say: its number by `tkhd`, its
/// clock and duration by `mdhd`, what it carries by `hdlr`; its tables are
/// those of `stbl`, or of `minf` where there is none.
pub proof fn law_track_head_is_read(
    trak: Seq<u8>,
    boxes: Seq<BoxModel>,
    tkhd: Seq<u8>,
    mdia: Seq<BoxModel>,
    mdhd: Seq<u8>,
    hdlr: Seq<u8>,
    minf: Seq<BoxModel>,
    tables: Seq<BoxModel>,
)
    requires
        boxes_of(trak) == Ok::<Seq<BoxModel>, Mp4Error>(boxes),
        last_box(boxes, TKHD) == Some(tkhd),
        last_box(boxes, MDIA) is Some,
        boxes_of(last_box(boxes, MDIA)->0) == Ok::<Seq<BoxModel>, Mp4Error>(mdia),
        last_box(mdia, MDHD) == Some(mdhd),
        last_box(mdia, HDLR) == Some(hdlr),
        last_box(mdia, MINF) is Some,
        boxes_of(last_box(mdia, MINF)->0) == Ok::<Seq<BoxModel>, Mp4Error>(minf),
        last_box(minf, STBL) is Some ==> boxes_of(last_box(minf, STBL)->0) == Ok::<
            Seq<BoxModel>,
            Mp4Error,
        >(tables),
        last_box(minf, STBL) is None ==> tables == minf,
    ensures
        mdhd_timescale(mdhd) == 0 ==> track_head(trak) == Err::<Option<HeadModel>, Mp4Error>(
            Mp4Error::ZeroTimescale,
        ),
        mdhd_timescale(mdhd) > 0 && hdlr_kind(hdlr) == TrackKind::Other ==> track_head(trak)
            == Ok::<Option<HeadModel>, Mp4Error>(None),
        mdhd_timescale(mdhd) > 0 && hdlr_kind(hdlr) != TrackKind::Other ==> {
            let r = track_head(trak);
            &&& r is Ok && r->Ok_0 is Some
            &&& (r->Ok_0)->0.track_id == tkhd_track_id(tkhd)
            &&& (r->Ok_0)->0.timescale == mdhd_timescale(mdhd)
            &&& (r->Ok_0)->0.duration == mdhd_duration(mdhd)
            &&& (r->Ok_0)->0.handler == hdlr_kind(hdlr)
            &&& (r->Ok_0)->0.tables == tables
        },
{
    lemma_head_numbers(tkhd, mdhd);
}

proof fn lemma_head_numbers(tkhd: Seq<u8>, mdhd: Seq<u8>)
    ensures
        0 <= tkhd_track_id(tkhd) <= u32::MAX,
        0 <= mdhd_timescale(mdhd) <= u32::MAX,
        0 <= mdhd_duration(mdhd) <= u32::MAX,
{
}

/// A track without the boxes that it must have is refused, and the box that is
/// missing is named.
pub proof fn law_missing_box_of_track_is_named(trak: Seq<u8>, boxes: Seq<BoxModel>)
    requires
        boxes_of(trak) == Ok::<Seq<BoxModel>, Mp4Error>(boxes),
    ensures
        last_box(boxes, TKHD) is None ==> track_head(trak) == Err::<Option<HeadModel>, Mp4Error>(
            Mp4Error::MissingBox(TKHD),
        ),
        last_box(boxes, TKHD) is Some && last_box(boxes, MDIA) is None ==> track_head(trak) == Ok::<
            Option<HeadModel>,
            Mp4Error,
        >(None),
        last_box(boxes, TKHD) is Some && last_box(boxes, MDIA) is Some ==> {
            let mdia = boxes_of(last_box(boxes, MDIA)->0);
            &&& mdia is Ok && last_box(mdia->Ok_0, MDHD) is None ==> track_head(trak) == Err::<
                Option<HeadModel>,
                Mp4Error,
            >(Mp4Error::MissingBox(MDHD))
            &&& mdia is Ok && last_box(mdia->Ok_0, MDHD) is Some && mdhd_timescale(
                last_box(mdia->Ok_0, MDHD)->0,
            ) > 0 && last_box(mdia->Ok_0, HDLR) is None ==> track_head(trak) == Err::<
                Option<HeadModel>,
                Mp4Error,
            >(Mp4Error::MissingBox(HDLR))
        },
{
}

/// The tables of a track must all be there, and the one that is missing is
/// named; a track without samples is skipped.
pub proof fn law_missing_table_is_named(tables: Seq<BoxModel>, handler: TrackKind, file_len: int)
    ensures
        ({
            let r = sample_tables(tables, handler, file_len);
            let stsd = last_box(tables, STSD);
            let stsz = last_box(tables, STSZ);
            let stts = last_box(tables, STTS);
            let known = stsd is Some && stsd_codec(stsd->0, handler) is Ok;
            let sized = known && stsz is Some && stsz_sizes(stsz->0, file_len) is Ok;
            let count = stsz_sizes(stsz->0, file_len)->Ok_0.len() as int;
            let timed = sized && count > 0 && stts is Some && stts_durations(stts->0, count) is Ok;
            &&& stsd is None ==> r is Err && r->Err_0 == Mp4Error::MissingBox(STSD)
            &&& known && stsz is None ==> r is Err && r->Err_0 == Mp4Error::MissingBox(STSZ)
            &&& sized && count == 0 ==> r is Ok && r->Ok_0 is None
            &&& sized && count > 0 && stts is None ==> r is Err && r->Err_0 == Mp4Error::MissingBox(
                STTS,
            )
            &&& timed && last_box(tables, STSC) is None ==> r is Err && r->Err_0
                == Mp4Error::MissingBox(STSC)
            &&& last_box(tables, CO64) is None && last_box(tables, STCO) is None ==> chunk_offsets(
                tables,
            ) == Err::<Seq<u64>, Mp4Error>(Mp4Error::MissingBox(STCO))
        }),
{
}

/// A file must have a movie, media data and a movie header, and a track that
/// can be played; what is missing is named.
pub proof fn law_missing_box_of_file_is_named(data: Seq<u8>, top: Seq<BoxModel>)
    requires
        boxes_of(data) == Ok::<Seq<BoxModel>, Mp4Error>(top),
    ensures
        ({
            let r = file_tracks(data);
            let moov = last_box(top, MOOV);
            let boxes = boxes_of(moov->0);
            let opened = moov is Some && last_box(top, MDAT) is Some && boxes is Ok;
            let tracks = movie_tracks(boxes->Ok_0, data);
            &&& moov is None ==> r is Err && r->Err_0 == Mp4Error::MissingBox(MOOV)
            &&& moov is Some && last_box(top, MDAT) is None ==> r is Err && r->Err_0
                == Mp4Error::MissingBox(MDAT)
            &&& opened && last_box(boxes->Ok_0, MVHD) is None ==> r is Err && r->Err_0
                == Mp4Error::MissingBox(MVHD)
            &&& opened && last_box(boxes->Ok_0, MVHD) is Some && tracks.len() == 0 ==> r is Err
                && r->Err_0 == Mp4Error::NoTracks
            &&& opened && last_box(boxes->Ok_0, MVHD) is Some && tracks.len() > 0 ==> r is Ok
                && r->Ok_0 == tracks
        }),
{
}

/// Display parameters are set of the track with the given number alone: the
/// picture size of an H.264 or H.265 video track, at 30 frames a second, and
/// the sampling frequency of an AAC track. Everything else stays.
pub proof fn law_display_parameters_are_set(
    tracks: Seq<ParsedModel>,
    number: u32,
    size: (u32, u32),
    rate: u32,
    i: int,
)
    requires
        0 <= i < tracks.len(),
    ensures
        ({
            let r = with_params(tracks, number, Some(size), Some(rate));
            let old_track = tracks[i].track;
            let t = r[i].track;
            let pictures = old_track.handler == TrackKind::Video && (old_track.codec
                == CodecId::H264 || old_track.codec == CodecId::H265);
            let sound = old_track.handler == TrackKind::Audio && old_track.codec == CodecId::AAC;
            &&& r.len() == tracks.len()
            &&& r[i].samples == tracks[i].samples
            &&& old_track.track_id != number ==> t == old_track
            &&& old_track.track_id == number ==> t == (TrackModel {
                width: t.width,
                height: t.height,
                fps: t.fps,
                sample_rate: t.sample_rate,
                ..old_track
            })
            &&& old_track.track_id == number && pictures ==> t.width == size.0 && t.height == size.1
                && t.fps == 30 && t.sample_rate == 0
            &&& old_track.track_id == number && sound ==> t.sample_rate == rate && t.width == 0
                && t.height == 0 && t.fps == 0
        }),
{
}

// ── order ───────────────────────────────────────────────────────────────

proof fn lemma_indices(tracks: Seq<ParsedModel>, n: int)
    requires
        0 <= n <= tracks.len(),
    ensures
        ({
            let at = sample_indices(tracks, n);
            &&& forall|x: int|
                0 <= x < at.len() ==> 0 <= (#[trigger] at[x]).0 < n && 0 <= at[x].1
                    < tracks[at[x].0].samples.len()
            &&& forall|x: int, y: int|
                0 <= x < y < at.len() ==> (#[trigger] at[x]).0 < (#[trigger] at[y]).0 || (at[x].0
                    == at[y].0 && at[x].1 < at[y].1)
        }),
    decreases n,
{
    if n > 0 {
        lemma_indices(tracks, n - 1);
        let before = sample_indices(tracks, n - 1);
        let more = Seq::new(tracks[n - 1].samples.len(), |k: int| (n - 1, k));
        let at = sample_indices(tracks, n);
        assert(at == before + more);
        assert forall|x: int, y: int| 0 <= x < y < at.len() implies (#[trigger] at[x]).0 < (
        #[trigger] at[y]).0 || (at[x].0 == at[y].0 && at[x].1 < at[y].1) by {
            if y < before.len() {
                assert(at[x] == before[x] && at[y] == before[y]);
            } else if x < before.len() {
                assert(at[x] == before[x] && at[y] == more[y - before.len()]);
            } else {
                assert(at[x] == more[x - before.len()] && at[y] == more[y - before.len()]);
            }
        }
        assert forall|x: int| 0 <= x < at.len() implies 0 <= (#[trigger] at[x]).0 < n && 0
            <= at[x].1 < tracks[at[x].0].samples.len() by {
            if x < before.len() {
                assert(at[x] == before[x]);
            } else {
                assert(at[x] == more[x - before.len()]);
            }
        }
    }
}

/// Samples that play at one time are handed out in the order of their tracks,
/// and those of one track in their order.
pub proof fn law_equal_times_keep_order(tracks: Seq<ParsedModel>, p: Seq<int>, i: int, j: int)
    requires
        playback_order(tracks, p),
        0 <= i < j < p.len(),
    ensures
        ({
            let at = sample_indices(tracks, tracks.len() as int);
            let (s, k) = at[p[i]];
            let (t, l) = at[p[j]];
            let a = tracks[s].samples[k].pts_ms;
            let b = tracks[t].samples[l].pts_ms;
            a < b || (a == b && (s < t || (s == t && k < l)))
        }),
{
    let at = sample_indices(tracks, tracks.len() as int);
    lemma_indices(tracks, tracks.len() as int);
    let keys = pts_keys(tracks, at);
    assert(0 <= p[i] < keys.len() && 0 <= p[j] < keys.len());
    let a = keys[p[i]];
    let b = keys[p[j]];
    assert(a.0 < b.0 || (a.0 == b.0 && (a.1 < b.1 || (a.1 == b.1 && p[i] < p[j]))));
    if p[i] < p[j] {
        let x = p[i];
        let y = p[j];
        assert(at[x].0 < at[y].0 || (at[x].0 == at[y].0 && at[x].1 < at[y].1));
    }
}

// ── initialization segments ─────────────────────────────────────────────

/// A box is found at the end of a path, step by step, in the first box of each
/// type; where a step finds none there is none.
pub proof fn law_path_is_followed(
    data: Seq<u8>,
    parent: BoxView,
    kinds: (u32, u32, u32),
    x: BoxView,
    y: BoxView,
)
    requires
        child_span(data, parent, kinds.0) == Ok::<Option<BoxView>, FragmentError>(Some(x)),
        child_span(data, x, kinds.1) == Ok::<Option<BoxView>, FragmentError>(Some(y)),
    ensures
        descendant_span(data, parent, seq![kinds.0, kinds.1, kinds.2]) == child_span(
            data,
            y,
            kinds.2,
        ),
        descendant_span(data, parent, seq![kinds.0, kinds.1]) == Ok::<
            Option<BoxView>,
            FragmentError,
        >(Some(y)),
{
    let three = seq![kinds.0, kinds.1, kinds.2];
    let two = seq![kinds.0, kinds.1];
    assert(three.skip(1) =~= seq![kinds.1, kinds.2]);
    assert(three.skip(1).skip(1) =~= seq![kinds.2]);
    assert(three.skip(1).skip(1).skip(1) =~= Seq::<u32>::empty());
    assert(two.skip(1) =~= seq![kinds.1]);
    assert(two.skip(1).skip(1) =~= Seq::<u32>::empty());
    reveal_with_fuel(descendant_span, 4);
}

/// A track of an initialization segment is what its own boxes say: number and
/// picture size by `tkhd`, clock by `mdhd`, and the rest by its sample entry. A
/// clock that stands still counts as one tick a second.
pub proof fn law_init_track_is_read(
    data: Seq<u8>,
    trak: BoxView,
    tkhd: BoxView,
    mdia: BoxView,
    mdhd: BoxView,
    stsd: BoxView,
    id: int,
    clock: int,
    codec: CodecId,
    channels: u32,
    config: Seq<u8>,
)
    requires
        child_span(data, trak, TKHD) == Ok::<Option<BoxView>, FragmentError>(Some(tkhd)),
        child_span(data, trak, MDIA) == Ok::<Option<BoxView>, FragmentError>(Some(mdia)),
        child_span(data, mdia, MDHD) == Ok::<Option<BoxView>, FragmentError>(Some(mdhd)),
        descendant_span(data, mdia, seq![MINF, STBL, STSD]) == Ok::<Option<BoxView>, FragmentError>(
            Some(stsd),
        ),
        field32(span_body(data, tkhd), versioned_offset(span_body(data, tkhd))) == Ok::<
            int,
            FragmentError,
        >(id),
        field32(span_body(data, mdhd), versioned_offset(span_body(data, mdhd))) == Ok::<
            int,
            FragmentError,
        >(clock),
        init_entry(data, stsd) == Ok::<(CodecId, u32, Seq<u8>), FragmentError>(
            (codec, channels, config),
        ),
    ensures
        ({
            let r = init_track(data, trak);
            &&& r is Ok
            &&& r->Ok_0.id == id
            &&& clock > 0 ==> r->Ok_0.timescale == clock
            &&& clock == 0 ==> r->Ok_0.timescale == 1
            &&& r->Ok_0.codec == codec
            &&& r->Ok_0.channels == channels
            &&& r->Ok_0.config == config
            &&& r->Ok_0.width == tkhd_width(span_body(data, tkhd)) as u32
            &&& r->Ok_0.height == tkhd_height(span_body(data, tkhd)) as u32
        }),
{
}

/// The boxes that an initialization segment must have are named where they are
/// missing.
pub proof fn law_missing_box_of_segment_is_named(
    data: Seq<u8>,
    top: Seq<BoxView>,
    trak: BoxView,
    mdia: BoxView,
)
    requires
        spans(data, 0, data.len() as int) == Ok::<Seq<BoxView>, FragmentError>(top),
    ensures
        first_span(top, MOOV) is None ==> init_segment_tracks(data) == Err::<
            Seq<FragmentTrackModel>,
            FragmentError,
        >(FragmentError::MissingBox(MOOV)),
        child_span(data, trak, TKHD) == Ok::<Option<BoxView>, FragmentError>(None) ==> init_track(
            data,
            trak,
        ) == Err::<FragmentTrackModel, FragmentError>(FragmentError::MissingBox(TKHD)),
        child_span(data, mdia, MDHD) == Ok::<Option<BoxView>, FragmentError>(None) ==> init_media(
            data,
            mdia,
        ) is Err && init_media(data, mdia)->Err_0 == FragmentError::MissingBox(MDHD),
        first_span(top, MOOV) is Some ==> {
            let moov = first_span(top, MOOV)->0;
            let list = spans(data, moov.data_start as int, moov.end as int);
            list is Ok && (forall|i: int|
                0 <= i < list->Ok_0.len() ==> (#[trigger] list->Ok_0[i]).kind != TRAK)
                ==> init_segment_tracks(data) == Err::<Seq<FragmentTrackModel>, FragmentError>(
                FragmentError::NoTracks,
            )
        },
{
    if first_span(top, MOOV) is Some {
        let moov = first_span(top, MOOV)->0;
        let list = spans(data, moov.data_start as int, moov.end as int);
        if list is Ok && forall|i: int|
            0 <= i < list->Ok_0.len() ==> (#[trigger] list->Ok_0[i]).kind != TRAK {
            lemma_no_track(data, list->Ok_0, 0);
        }
    }
}

proof fn lemma_no_track(data: Seq<u8>, list: Seq<BoxView>, i: int)
    requires
        0 <= i <= list.len(),
        forall|j: int| 0 <= j < list.len() ==> (#[trigger] list[j]).kind != TRAK,
    ensures
        init_tracks(data, list, i, Seq::empty()) == Ok::<Seq<FragmentTrackModel>, FragmentError>(
            Seq::empty(),
        ),
    decreases list.len() - i,
{
    if i < list.len() {
        lemma_no_track(data, list, i + 1);
    }
}

/// The sample entry of an AAC track has its channels in the two bytes behind
/// sixteen others of the entry body, and a video track none.
pub proof fn law_channels_are_read(data: Seq<u8>, stsd: BoxView, n: int)
    requires
        init_entry(data, stsd) is Ok,
        span_body(data, stsd).len() >= 34,
        0 <= n < 0x1_0000,
        span_body(data, stsd)[32] == (n / 256) as u8,
        span_body(data, stsd)[33] == (n % 256) as u8,
    ensures
        ({
            let (codec, channels, config) = init_entry(data, stsd)->Ok_0;
            &&& codec == CodecId::AAC ==> channels == n
            &&& codec != CodecId::AAC ==> channels == 0
        }),
{
}

// ── media segments ──────────────────────────────────────────────────────

/// A segment must have a fragment and media data, and each track fragment a
/// header that names a track of the initialization segment; what is missing or
/// unknown is named.
pub proof fn law_wrong_segment_is_refused(
    data: Seq<u8>,
    tracks: Seq<FragmentTrackModel>,
    top: Seq<BoxView>,
    moof: BoxView,
    mdat: BoxView,
    traf: BoxView,
    tfhd: BoxView,
)
    requires
        spans(data, 0, data.len() as int) == Ok::<Seq<BoxView>, FragmentError>(top),
    ensures
        first_span(top, MOOF) is None ==> segment_frames(data, tracks) == Err::<
            Seq<FrameModel>,
            FragmentError,
        >(FragmentError::MissingBox(MOOF)),
        first_span(top, MOOF) is Some && first_span(top, MDAT) is None ==> segment_frames(
            data,
            tracks,
        ) == Err::<Seq<FrameModel>, FragmentError>(FragmentError::MissingBox(MDAT)),
        child_span(data, traf, TFHD) == Ok::<Option<BoxView>, FragmentError>(None) ==> traf_frames(
            data,
            tracks,
            moof,
            mdat,
            traf,
        ) == Err::<Seq<FrameModel>, FragmentError>(FragmentError::MissingBox(TFHD)),
        child_span(data, traf, TFHD) == Ok::<Option<BoxView>, FragmentError>(Some(tfhd)) && span_body(
            data,
            tfhd,
        ).len() >= 8 && (forall|i: int|
            0 <= i < tracks.len() ==> (#[trigger] tracks[i]).id != u32_at(
                span_body(data, tfhd),
                4,
            )) ==> traf_frames(data, tracks, moof, mdat, traf) == Err::<
            Seq<FrameModel>,
            FragmentError,
        >(FragmentError::UnknownTrack(u32_at(span_body(data, tfhd), 4) as u32)),
{
    let id = u32_at(span_body(data, tfhd), 4);
    if forall|i: int| 0 <= i < tracks.len() ==> (#[trigger] tracks[i]).id != id {
        lemma_unknown(tracks, id as u32, 0);
    }
}

proof fn lemma_unknown(tracks: Seq<FragmentTrackModel>, id: u32, i: int)
    requires
        0 <= i <= tracks.len(),
        forall|j: int| 0 <= j < tracks.len() ==> (#[trigger] tracks[j]).id != id,
    ensures
        track_index(tracks, id, i) is None,
    decreases tracks.len() - i,
{
    if i < tracks.len() {
        lemma_unknown(tracks, id, i + 1);
    }
}

/// A run whose samples begin before the segment is refused, and so is one with
/// a sample that ends behind it. Without an offset of its own a run begins
/// behind the one before it.
pub proof fn law_samples_lie_in_segment(
    data: Seq<u8>,
    t: FragmentTrackModel,
    r: RunModel,
    d: FragmentDefaults,
    at: int,
    time: int,
    offset: int,
    distance: int,
    implicit: int,
    rest: Seq<u8>,
)
    requires
        r.count > 0,
        at + record_len(r.flags) <= r.body.len(),
        0 < distance <= 0x8000_0000,
        0 <= implicit,
    ensures
        offset + record_size(r, d, at) > data.len() ==> run_frames(
            data,
            t,
            r,
            d,
            r.count,
            at,
            time,
            offset,
        ) is Err && run_frames(data, t, r, d, r.count, at, time, offset)->Err_0
            == FragmentError::TruncatedSample,
        ({
            let body = be32(1) + be32(r.count % 0x1_0000_0000) + be32(0x1_0000_0000 - distance)
                + rest;
            &&& d.base < distance ==> run_header(body, d, implicit) == Err::<
                RunModel,
                FragmentError,
            >(FragmentError::NegativeOffset)
            &&& distance <= d.base <= i64::MAX ==> run_header(body, d, implicit) is Ok
                && run_header(body, d, implicit)->Ok_0.samples_at == d.base - distance
        }),
        ({
            let body = be32(0) + be32(r.count % 0x1_0000_0000) + rest;
            run_header(body, d, implicit) is Ok && run_header(body, d, implicit)->Ok_0.samples_at
                == implicit
        }),
{
    broadcast use group_be_len;

    let none = Seq::<u8>::empty();
    let n = r.count % 0x1_0000_0000;
    let body = be32(1) + be32(n) + be32(0x1_0000_0000 - distance) + rest;
    lemma_u32_in(none, 1, be32(n) + be32(0x1_0000_0000 - distance) + rest);
    assert(none + be32(1) + (be32(n) + be32(0x1_0000_0000 - distance) + rest) =~= body);
    lemma_u32_in(be32(1) + be32(n), 0x1_0000_0000 - distance, rest);
    let plain = be32(0) + be32(n) + rest;
    lemma_u32_in(none, 0, be32(n) + rest);
    assert(none + be32(0) + (be32(n) + rest) =~= plain);
    assert(1int % 0x100_0000 == 1);
    assert(bit_set(1, 1) && !bit_set(1, 4) && !bit_set(0, 1) && !bit_set(0, 4));
}

} // verus!
