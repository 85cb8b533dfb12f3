//! What the segments of a live stream are together: how frames become samples,
//! and how segments follow one another in time.
use vstd::prelude::*;
use crate::media::{CodecId, FrameModel, FrameType};
use crate::mp4::fmp4::{
    Fmp4Model, FragmentSample, after_flush, empty_fmp4, flushed_segment, fmp4_pushed,
    sample_flag_word, samples_wait,
};
use crate::mp4::fragment_laws::{frame_shows, lemma_frame};
use crate::mp4::fragment_roundtrip::{
    SegmentParts, audio_frames, found_frames, law_segment_gives_samples_back, time_at, video_frames,
};
use crate::mp4::fragmented_demuxer::{FragmentTrackModel, segment_frames, track_index};

verus! {

/// Whether the next segment begins no later than the stream has come.
pub open spec fn clock_kept(m: Fmp4Model) -> bool {
    m.segment_start_time <= m.total_duration
}

/// The muxer after frames, each with what the codec layer made of it.
pub open spec fn pushed_all(m: Fmp4Model, frames: Seq<(FrameModel, Option<Seq<u8>>)>) -> Fmp4Model
    decreases frames.len(),
{
    if frames.len() == 0 {
        m
    } else {
        fmp4_pushed(pushed_all(m, frames.drop_last()), frames.last().0, frames.last().1)
    }
}

proof fn lemma_end_fits(rel: u32, clock: u32)
    ensures
        0 <= rel * clock / 1000 + clock / 25 <= u64::MAX,
{
    assert(0 <= rel * clock <= 0xffff_ffff * 0xffff_ffff) by (nonlinear_arith)
        requires
            0 <= rel <= 0xffff_ffff,
            0 <= clock <= 0xffff_ffff,
    ;
}

/// A frame leaves the segments alone that were made before it: it neither moves
/// the start of the next one nor its number, and the stream does not become
/// shorter.
pub proof fn law_push_keeps_clock(m: Fmp4Model, frame: FrameModel, payload: Option<Seq<u8>>)
    requires
        clock_kept(m),
    ensures
        clock_kept(fmp4_pushed(m, frame, payload)),
        fmp4_pushed(m, frame, payload).segment_start_time == m.segment_start_time,
        fmp4_pushed(m, frame, payload).segment_seq == m.segment_seq,
        fmp4_pushed(m, frame, payload).total_duration >= m.total_duration,
        fmp4_pushed(m, frame, payload).video_timescale == m.video_timescale,
        m.base_timestamp matches Some(t) ==> fmp4_pushed(m, frame, payload).base_timestamp == Some(
            t,
        ),
        m.base_timestamp is None ==> fmp4_pushed(m, frame, payload).base_timestamp == Some(
            frame.timestamp,
        ),
{
    let base = match m.base_timestamp {
        Some(t) => t,
        None => frame.timestamp,
    };
    lemma_end_fits(crate::mp4::muxer::since(base, frame.timestamp), m.video_timescale);
}

proof fn lemma_all_keep_clock(m: Fmp4Model, frames: Seq<(FrameModel, Option<Seq<u8>>)>)
    requires
        clock_kept(m),
    ensures
        clock_kept(pushed_all(m, frames)),
        pushed_all(m, frames).segment_start_time == m.segment_start_time,
        pushed_all(m, frames).segment_seq == m.segment_seq,
        pushed_all(m, frames).total_duration >= m.total_duration,
    decreases frames.len(),
{
    if frames.len() > 0 {
        lemma_all_keep_clock(m, frames.drop_last());
        law_push_keeps_clock(
            pushed_all(m, frames.drop_last()),
            frames.last().0,
            frames.last().1,
        );
    }
}

/// Segments follow one another without gap or overlap: whatever frames come
/// between two flushes, the second segment begins where the first one ends, and
/// its number is the next one. The first segment of a stream begins at zero.
pub proof fn law_segments_tile_time(
    m: Fmp4Model,
    frames: Seq<(FrameModel, Option<Seq<u8>>)>,
    video_timescale: u32,
)
    requires
        clock_kept(m),
        m.segment_seq < u64::MAX,
    ensures
        ({
            let first = flushed_segment(m);
            let second = flushed_segment(pushed_all(after_flush(m), frames));
            &&& second.start_time == first.start_time + first.duration
            &&& second.sequence == first.sequence + 1
            &&& !first.is_init && !second.is_init
        }),
        clock_kept(after_flush(m)),
        !samples_wait(after_flush(m)),
        after_flush(m).base_timestamp == m.base_timestamp,
        after_flush(m).video_timescale == m.video_timescale,
        after_flush(m).total_duration == m.total_duration,
        clock_kept(empty_fmp4(video_timescale)),
        flushed_segment(pushed_all(empty_fmp4(video_timescale), frames)).start_time == 0,
        flushed_segment(pushed_all(empty_fmp4(video_timescale), frames)).sequence == 0,
{
    lemma_all_keep_clock(after_flush(m), frames);
    lemma_all_keep_clock(empty_fmp4(video_timescale), frames);
}

/// What the samples of a media frame hold: for codecs that are rewritten what
/// the codec layer made of it, else its own bytes.
pub open spec fn holds_frame(frame: FrameModel, payload: Option<Seq<u8>>, data: Seq<u8>) -> bool {
    if frame.codec == CodecId::H264 || frame.codec == CodecId::H265 || frame.codec == CodecId::AAC {
        payload == Some(data)
    } else {
        data == frame.data
    }
}

/// A media frame becomes the last waiting sample of its track, with a nominal
/// duration of a 25th of a second, and the stream lasts at least until the end
/// of it. Here `begin` is when the frame begins, in ticks since the first frame.
pub proof fn law_frame_waits_for_segment(
    m: Fmp4Model,
    frame: FrameModel,
    payload: Option<Seq<u8>>,
    data: Seq<u8>,
    base: u32,
    begin: int,
)
    requires
        !frame.config_frame,
        frame.frame_type != FrameType::Metadata,
        holds_frame(frame, payload, data),
        m.base_timestamp == Some(base) || (m.base_timestamp is None && base == frame.timestamp),
        base <= frame.timestamp,
        begin * 1000 <= (frame.timestamp - base) * m.video_timescale < (begin + 1) * 1000,
    ensures
        ({
            let next = fmp4_pushed(m, frame, payload);
            let mine = if frame.frame_type == FrameType::Video {
                (m.video_samples, next.video_samples)
            } else {
                (m.audio_samples, next.audio_samples)
            };
            let others = if frame.frame_type == FrameType::Video {
                (m.audio_samples, next.audio_samples)
            } else {
                (m.video_samples, next.video_samples)
            };
            let s = mine.1.last();
            &&& mine.1.len() == mine.0.len() + 1
            &&& mine.1.drop_last() == mine.0
            &&& others.1 == others.0
            &&& s.data == data
            &&& s.is_sync == frame.key_frame
            &&& s.timestamp == frame.timestamp - base
            &&& s.duration * 25 <= m.video_timescale < (s.duration + 1) * 25
            &&& next.total_duration == if m.total_duration >= begin + s.duration {
                m.total_duration as int
            } else {
                begin + s.duration
            }
        }),
{
    let rel = (frame.timestamp - base) as u32;
    lemma_end_fits(rel, m.video_timescale);
    let next = fmp4_pushed(m, frame, payload);
    assert(rel * m.video_timescale / 1000 == begin);
    assert(next.video_samples.len() > m.video_samples.len() ==> next.video_samples.drop_last()
        =~= m.video_samples);
    assert(next.audio_samples.len() > m.audio_samples.len() ==> next.audio_samples.drop_last()
        =~= m.audio_samples);
}

proof fn lemma_time_at(samples: Seq<FragmentSample>, start: int, ticks: Seq<int>, k: int)
    requires
        ticks.len() == samples.len() + 1,
        ticks[0] == start,
        forall|i: int|
            0 <= i < samples.len() ==> #[trigger] ticks[i + 1] == ticks[i] + samples[i].duration,
        0 <= start,
        0 <= k <= samples.len(),
        forall|i: int| 0 <= i < ticks.len() ==> #[trigger] ticks[i] * 1000 <= u64::MAX,
    ensures
        time_at(samples, start, k) == ticks[k],
        0 <= ticks[k],
    decreases k,
{
    if k > 0 {
        lemma_time_at(samples, start, ticks, k - 1);
        assert(ticks[(k - 1) + 1] == ticks[k - 1] + samples[k - 1].duration);
        assert(ticks[k] * 1000 <= u64::MAX);
    }
}

/// Whether the track with number `id` is known, at `i`, with a clock.
pub open spec fn track_at(tracks: Seq<FragmentTrackModel>, id: u32, i: int) -> bool {
    &&& 0 <= i < tracks.len()
    &&& tracks[i].id == id
    &&& tracks[i].timescale > 0
    &&& forall|k: int| 0 <= k < i ==> (#[trigger] tracks[k]).id != id
}

proof fn lemma_index(tracks: Seq<FragmentTrackModel>, id: u32, i: int, from: int)
    requires
        track_at(tracks, id, i),
        0 <= from <= i,
    ensures
        track_index(tracks, id, from) == Some(i),
    decreases i - from,
{
    if from < i {
        assert(tracks[from].id != id);
        lemma_index(tracks, id, i, from + 1);
    }
}

/// Whether samples begin at `start`, each when the one before it has lasted, at
/// times that can be told in milliseconds.
pub open spec fn samples_begin(
    samples: Seq<FragmentSample>,
    start: int,
    ticks: Seq<int>,
) -> bool {
    &&& ticks.len() == samples.len() + 1
    &&& ticks[0] == start
    &&& forall|i: int|
        0 <= i < samples.len() ==> #[trigger] ticks[i + 1] == ticks[i] + samples[i].duration
    &&& forall|i: int| 0 <= i < ticks.len() ==> #[trigger] ticks[i] * 1000 <= u64::MAX
}

/// The frames that are found for samples.
proof fn lemma_found(
    t: FragmentTrackModel,
    samples: Seq<FragmentSample>,
    start: int,
    ticks: Seq<int>,
    k: int,
)
    requires
        t.timescale > 0,
        0 <= start,
        samples_begin(samples, start, ticks),
        0 <= k < samples.len(),
    ensures
        ({
            let f = found_frames(t, samples, start)[k];
            &&& frame_shows(
                f,
                t,
                samples[k].data,
                ticks[k],
                ticks[k],
                if samples[k].is_sync {
                    0
                } else {
                    0x1_0000
                },
            )
        }),
{
    lemma_time_at(samples, start, ticks, k);
    assert(ticks[k] * 1000 <= u64::MAX);
    lemma_frame(t, ticks[k], 0, samples[k].data, sample_flag_word(samples[k].is_sync));
    assert((0x0200_0000int / 0x1_0000) % 2 == 0);
    assert((0x0101_0000int / 0x1_0000) % 2 == 1);
}

/// A segment that is read by a demuxer that knows its tracks: in each track the
/// first sample is decoded when the segment says that it begins, each other
/// when the one before it has lasted, all are presented when they are decoded,
/// and decoding can start at those that were marked for it.
pub proof fn law_segment_plays_from_its_start(
    m: Fmp4Model,
    tracks: Seq<FragmentTrackModel>,
    video: int,
    audio: int,
    video_ticks: Seq<int>,
    audio_ticks: Seq<int>,
)
    requires
        flushed_segment(m).data.len() < 0x8000_0000,
        m.video_samples.len() > 0 ==> track_at(tracks, 1, video),
        m.audio_samples.len() > 0 ==> track_at(tracks, 2, audio),
        samples_begin(m.video_samples, flushed_segment(m).start_time as int, video_ticks),
        samples_begin(m.audio_samples, flushed_segment(m).start_time as int, audio_ticks),
    ensures
        ({
            let r = segment_frames(flushed_segment(m).data, tracks);
            let v = m.video_samples.len() as int;
            let a = m.audio_samples.len() as int;
            &&& r is Ok
            &&& r->Ok_0.len() == v + a
            &&& forall|k: int|
                0 <= k < v ==> frame_shows(
                    #[trigger] r->Ok_0[k],
                    tracks[video],
                    m.video_samples[k].data,
                    video_ticks[k],
                    video_ticks[k],
                    if m.video_samples[k].is_sync {
                        0
                    } else {
                        0x1_0000
                    },
                )
            &&& forall|k: int|
                v <= k < v + a ==> frame_shows(
                    #[trigger] r->Ok_0[k],
                    tracks[audio],
                    m.audio_samples[k - v].data,
                    audio_ticks[k - v],
                    audio_ticks[k - v],
                    if m.audio_samples[k - v].is_sync {
                        0
                    } else {
                        0x1_0000
                    },
                )
        }),
{
    let p = SegmentParts {
        sequence: m.segment_seq,
        start_time: m.segment_start_time,
        video: m.video_samples,
        audio: m.audio_samples,
    };
    let v = m.video_samples.len() as int;
    let a = m.audio_samples.len() as int;
    let start = m.segment_start_time as int;
    if v > 0 {
        lemma_index(tracks, 1, video, 0);
    }
    if a > 0 {
        lemma_index(tracks, 2, audio, 0);
    }
    law_segment_gives_samples_back(p, tracks);
    let frames = video_frames(p, tracks) + audio_frames(p, tracks);
    assert(video_frames(p, tracks).len() == v);
    assert(audio_frames(p, tracks).len() == a);
    assert forall|k: int| 0 <= k < v implies frame_shows(
        #[trigger] frames[k],
        tracks[video],
        m.video_samples[k].data,
        video_ticks[k],
        video_ticks[k],
        if m.video_samples[k].is_sync {
            0
        } else {
            0x1_0000
        },
    ) by {
        lemma_found(tracks[video], m.video_samples, start, video_ticks, k);
        assert(frames[k] == found_frames(tracks[video], m.video_samples, start)[k]);
    }
    assert forall|k: int| v <= k < v + a implies frame_shows(
        #[trigger] frames[k],
        tracks[audio],
        m.audio_samples[k - v].data,
        audio_ticks[k - v],
        audio_ticks[k - v],
        if m.audio_samples[k - v].is_sync {
            0
        } else {
            0x1_0000
        },
    ) by {
        lemma_found(tracks[audio], m.audio_samples, start, audio_ticks, k - v);
        assert(frames[k] == found_frames(tracks[audio], m.audio_samples, start)[k - v]);
    }
}

} // verus!
