//! What a recording is: how frames become samples, how long the samples last,
//! and when they play once the file is read again.
use vstd::prelude::*;
use crate::media::{CodecId, FrameModel, FrameType};
use crate::mp4::demuxer::file_tracks;
use crate::mp4::entries::TrackKind;
use crate::mp4::layout_laws::{lemma_ticks, lemma_whole_ms, whole_ms};
use crate::mp4::muxer::{
    EntryModel, MuxerModel, audio_parts, durations_of, entries_of, file_bytes, last_time, pushed,
    scaled, two_tracks, video_parts, with_durations,
};
use crate::mp4::roundtrip::{
    codecs_carried, found_sample, found_tracks, law_file_gives_samples_back,
};

verus! {

/// The ticks in a second of a track: 90000 for video; for audio its sampling
/// frequency, or 44100 where none is known.
pub open spec fn clock_of(m: MuxerModel, video: bool) -> int {
    if video {
        90000
    } else if m.sample_rate > 0 {
        m.sample_rate as int
    } else {
        44100
    }
}

/// The number of a track in the muxer.
pub open spec fn number_of(video: bool) -> u32 {
    if video {
        0
    } else {
        1
    }
}

proof fn lemma_last_time_is(samples: Seq<EntryModel>, video: bool, n: int, j: int)
    requires
        0 <= j < n <= samples.len(),
        (samples[j].track_id == 0) == video,
        forall|k: int| j < k < n ==> ((#[trigger] samples[k]).track_id == 0) != video,
    ensures
        last_time(samples, video, n) == Some(samples[j].timestamp),
    decreases n,
{
    if j < n - 1 {
        assert((samples[n - 1].track_id == 0) != video);
        lemma_last_time_is(samples, video, n - 1, j);
    }
}

proof fn lemma_no_last_time(samples: Seq<EntryModel>, video: bool, n: int)
    requires
        0 <= n <= samples.len(),
        forall|k: int| 0 <= k < n ==> ((#[trigger] samples[k]).track_id == 0) != video,
    ensures
        last_time(samples, video, n) is None,
    decreases n,
{
    if n > 0 {
        assert((samples[n - 1].track_id == 0) != video);
        lemma_no_last_time(samples, video, n - 1);
    }
}

proof fn lemma_scaled(ms: int, clock: int)
    requires
        ms >= 1,
        1000 <= ms * clock,
        ms * clock < 0x1_0000_0000 * 1000,
    ensures
        scaled(ms, clock) * 1000 <= ms * clock < (scaled(ms, clock) + 1) * 1000,
        1 <= scaled(ms, clock) < 0x1_0000_0000,
{
    let q = ms * clock / 1000;
    assert(1 <= q < 0x1_0000_0000);
}

/// How long a sample of a track lasts that is not its first: as long as it came
/// after the one before it, in whole ticks of the clock of the track itself.
pub proof fn law_sample_lasts_since_the_one_before(m: MuxerModel, video: bool, j: int, i: int)
    requires
        two_tracks(m),
        0 <= j < i < m.samples.len(),
        m.samples[j].track_id == number_of(video),
        m.samples[i].track_id == number_of(video),
        forall|k: int|
            j < k < i ==> (#[trigger] m.samples[k]).track_id != number_of(video),
        m.samples[j].timestamp < m.samples[i].timestamp,
        1000 <= (m.samples[i].timestamp - m.samples[j].timestamp) * clock_of(m, video),
        (m.samples[i].timestamp - m.samples[j].timestamp) * clock_of(m, video) < 0x1_0000_0000
            * 1000,
    ensures
        ({
            let gap = m.samples[i].timestamp - m.samples[j].timestamp;
            let d = with_durations(m).samples[i].duration;
            d * 1000 <= gap * clock_of(m, video) < (d + 1) * 1000
        }),
{
    assert forall|k: int| j < k < i implies ((#[trigger] m.samples[k]).track_id == 0) != video by {
        assert(m.samples[k].track_id == 0 || m.samples[k].track_id == 1);
    }
    lemma_last_time_is(m.samples, video, i, j);
    let gap = m.samples[i].timestamp - m.samples[j].timestamp;
    lemma_scaled(gap, clock_of(m, video));
}

/// How long the first sample of a track lasts: a nominal frame, which is a 44th
/// of a second of audio, and of video what the frame rate says, 30 frames in a
/// second where none is known.
pub proof fn law_first_sample_lasts_a_frame(m: MuxerModel, video: bool, i: int)
    requires
        two_tracks(m),
        0 <= i < m.samples.len(),
        m.samples[i].track_id == number_of(video),
        forall|k: int|
            0 <= k < i ==> (#[trigger] m.samples[k]).track_id != number_of(video),
        m.fps <= 90000,
        clock_of(m, video) >= 44,
    ensures
        ({
            let d = with_durations(m).samples[i].duration;
            let frames: int = if !video {
                44
            } else if m.fps > 0 {
                m.fps as int
            } else {
                30
            };
            d * frames <= clock_of(m, video) < (d + 1) * frames
        }),
{
    assert forall|k: int| 0 <= k < i implies ((#[trigger] m.samples[k]).track_id == 0) != video by {
        assert(m.samples[k].track_id == 0 || m.samples[k].track_id == 1);
    }
    lemma_no_last_time(m.samples, video, i);
    let frames: int = if !video {
        44
    } else if m.fps > 0 {
        m.fps as int
    } else {
        30
    };
    let clock = clock_of(m, video);
    let q = clock / frames;
    assert(q * frames <= clock < (q + 1) * frames && 1 <= q <= clock) by (nonlinear_arith)
        requires
            1 <= frames <= clock,
            q == clock / frames,
    ;
}

/// Durations are set and nothing else.
pub proof fn law_durations_leave_samples_alone(m: MuxerModel, i: int)
    requires
        0 <= i < m.samples.len(),
    ensures
        ({
            let d = with_durations(m);
            &&& d.samples.len() == m.samples.len()
            &&& d.samples[i].track_id == m.samples[i].track_id
            &&& d.samples[i].data == m.samples[i].data
            &&& d.samples[i].timestamp == m.samples[i].timestamp
            &&& d.samples[i].is_sync == m.samples[i].is_sync
            &&& d.video_codec == m.video_codec && d.audio_codec == m.audio_codec
            &&& d.video_config == m.video_config && d.audio_config == m.audio_config
            &&& d.width == m.width && d.height == m.height
            &&& d.sample_rate == m.sample_rate
        }),
{
}

/// Whether `places` are the places of the samples of a track, all of them and
/// in order.
pub open spec fn lists_track(samples: Seq<EntryModel>, video: bool, places: Seq<int>) -> bool {
    &&& forall|k: int|
        0 <= k < places.len() ==> 0 <= #[trigger] places[k] < samples.len()
            && samples[places[k]].track_id == number_of(video)
    &&& forall|i: int, j: int|
        0 <= i < j < places.len() ==> #[trigger] places[i] < #[trigger] places[j]
    &&& forall|i: int|
        0 <= i < samples.len() && (#[trigger] samples[i]).track_id == number_of(video)
            ==> places.contains(i)
}

proof fn lemma_entries_listed(samples: Seq<EntryModel>, video: bool, places: Seq<int>, n: int)
    requires
        lists_track(samples, video, places),
        0 <= n <= samples.len(),
    ensures
        ({
            let e = entries_of(samples, number_of(video), n);
            &&& e.len() <= places.len()
            &&& forall|k: int|
                0 <= k < e.len() ==> #[trigger] e[k] == samples[places[k]] && places[k] < n
            &&& forall|k: int| e.len() <= k < places.len() ==> #[trigger] places[k] >= n
        }),
    decreases n,
{
    if n > 0 {
        lemma_entries_listed(samples, video, places, n - 1);
        let before = entries_of(samples, number_of(video), n - 1);
        let e = entries_of(samples, number_of(video), n);
        let c = before.len() as int;
        if samples[n - 1].track_id == number_of(video) {
            assert(places.contains(n - 1));
            let i = choose|i: int| 0 <= i < places.len() && places[i] == n - 1;
            assert(i >= c) by {
                if i < c {
                    assert(before[i] == samples[places[i]]);
                }
            }
            assert(i == c) by {
                if i > c {
                    assert(places[c] < places[i]);
                    assert(places[c] >= n - 1);
                }
            }
            assert forall|k: int| 0 <= k < e.len() implies #[trigger] e[k] == samples[places[k]]
                && places[k] < n by {
                if k < c {
                    assert(e[k] == before[k]);
                }
            }
            assert forall|k: int| e.len() <= k < places.len() implies #[trigger] places[k] >= n by {
                assert(places[c] < places[k]);
            }
        } else {
            assert forall|k: int| 0 <= k < e.len() implies #[trigger] e[k] == samples[places[k]]
                && places[k] < n by {
                assert(e[k] == before[k]);
            }
            assert forall|k: int| e.len() <= k < places.len() implies #[trigger] places[k] >= n by {
                assert(places[k] >= n - 1);
                assert(samples[places[k]].track_id == number_of(video));
            }
        }
    }
}

proof fn lemma_all_listed(m: MuxerModel, video: bool, places: Seq<int>)
    requires
        lists_track(m.samples, video, places),
    ensures
        ({
            let d = with_durations(m);
            let e = entries_of(d.samples, number_of(video), d.samples.len() as int);
            &&& e.len() == places.len()
            &&& forall|k: int| 0 <= k < e.len() ==> #[trigger] e[k] == d.samples[places[k]]
        }),
{
    let d = with_durations(m);
    assert(lists_track(d.samples, video, places)) by {
        assert forall|k: int| 0 <= k < places.len() implies 0 <= #[trigger] places[k]
            < d.samples.len() && d.samples[places[k]].track_id == number_of(video) by {
            assert(m.samples[places[k]].track_id == number_of(video));
        }
        assert forall|i: int|
            0 <= i < d.samples.len() && (#[trigger] d.samples[i]).track_id == number_of(
                video,
            ) implies places.contains(i) by {
            assert(m.samples[i].track_id == number_of(video));
        }
    }
    lemma_entries_listed(d.samples, video, places, d.samples.len() as int);
    let e = entries_of(d.samples, number_of(video), d.samples.len() as int);
    if e.len() < places.len() {
        assert(places[e.len() as int] >= d.samples.len());
    }
}

/// Whether `ticks` says when the samples at `places` begin: the first at zero,
/// and each other when the one before it has lasted.
pub open spec fn track_goes(m: MuxerModel, places: Seq<int>, ticks: Seq<int>) -> bool {
    &&& ticks.len() == places.len()
    &&& ticks.len() > 0 ==> ticks[0] == 0
    &&& forall|k: int|
        0 <= k && k + 1 < ticks.len() ==> #[trigger] ticks[k + 1] == ticks[k]
            + with_durations(m).samples[places[k]].duration
}

/// A recording that is read again has the samples of a track of the muxer as
/// those of a track of its own: all of them in order, byte for byte, on the
/// clock of that track, each at the time at which those before it have lasted.
pub proof fn law_recording_keeps_track(
    m: MuxerModel,
    video: bool,
    places: Seq<int>,
    ticks: Seq<int>,
) -> (x: int)
    requires
        two_tracks(m),
        codecs_carried(with_durations(m)),
        file_bytes(with_durations(m)).len() <= u32::MAX,
        m.samples.len() <= u32::MAX,
        lists_track(m.samples, video, places),
        places.len() > 0,
        track_goes(m, places, ticks),
        forall|k: int|
            0 <= k < ticks.len() ==> #[trigger] ticks[k] * 1000 < 0x1_0000_0000_0000_0000
                && ticks[k] * 1000 < 0x1_0000_0000 * clock_of(m, video),
    ensures
        ({
            let r = file_tracks(file_bytes(with_durations(m)));
            let t = r->Ok_0[x];
            &&& r is Ok
            &&& 0 <= x < r->Ok_0.len()
            &&& t.track.handler == if video {
                TrackKind::Video
            } else {
                TrackKind::Audio
            }
            &&& t.track.timescale == clock_of(m, video)
            &&& video && m.video_codec is Some ==> t.track.codec == m.video_codec->0
            &&& !video && m.audio_codec is Some ==> t.track.codec == m.audio_codec->0
            &&& t.samples.len() == places.len()
            &&& forall|k: int|
                0 <= k < places.len() ==> {
                    let s = #[trigger] t.samples[k];
                    &&& s.data == m.samples[places[k]].data
                    &&& s.dts_ms == s.pts_ms
                    &&& whole_ms(ticks[k], clock_of(m, video), s.pts_ms as int)
                }
        }),
{
    let d = with_durations(m);
    assert(0 <= places[0] < m.samples.len());
    law_file_gives_samples_back(m);
    lemma_all_listed(m, video, places);
    let parts = if video {
        video_parts(d)
    } else {
        audio_parts(d)
    };
    let e = parts.entries;
    let found = found_tracks(d);
    let x: int = if !video && video_parts(d).entries.len() > 0 {
        1
    } else {
        0
    };
    let t = found[x];
    assert forall|k: int| 0 <= k < places.len() implies {
        let s = #[trigger] t.samples[k];
        &&& s.data == m.samples[places[k]].data
        &&& s.dts_ms == s.pts_ms
        &&& whole_ms(ticks[k], clock_of(m, video), s.pts_ms as int)
    } by {
        let durations = durations_of(e);
        assert(e[k] == d.samples[places[k]]);
        assert(0 <= places[k] < m.samples.len());
        assert forall|i: int| 0 <= i && i + 1 < ticks.len() implies #[trigger] ticks[i + 1]
            == ticks[i] + durations[i] by {
            assert(e[i] == d.samples[places[i]]);
        }
        lemma_ticks(durations, ticks, k);
        assert(ticks[k] * 1000 < 0x1_0000_0000_0000_0000);
        lemma_whole_ms(ticks[k], clock_of(m, video));
        assert(t.samples[k] == found_sample(parts, k));
    }
    x
}

proof fn lemma_ms_apart(a: int, b: int, clock: int, ms_a: int, ms_b: int, gap: int)
    requires
        clock >= 1000,
        whole_ms(a, clock, ms_a),
        whole_ms(b, clock, ms_b),
        (b - a) * 1000 <= gap * clock < (b - a + 1) * 1000,
    ensures
        gap - 1 <= ms_b - ms_a <= gap,
{
    assert(ms_b - ms_a < gap + 1) by (nonlinear_arith)
        requires
            clock >= 1000,
            ms_b * clock <= b * 1000,
            a * 1000 < (ms_a + 1) * clock,
            (b - a) * 1000 <= gap * clock,
    ;
    assert(ms_b - ms_a > gap - 2) by (nonlinear_arith)
        requires
            clock >= 1000,
            b * 1000 < (ms_b + 1) * clock,
            ms_a * clock <= a * 1000,
            gap * clock < (b - a + 1) * 1000,
    ;
}

/// In a recording that is read again, a sample of a track plays as long as it
/// came behind the one before it, to the millisecond: on the clock of the
/// track itself, be it of video or of audio of any sampling frequency.
pub proof fn law_recording_keeps_time(
    m: MuxerModel,
    video: bool,
    places: Seq<int>,
    ticks: Seq<int>,
    k: int,
) -> (x: int)
    requires
        two_tracks(m),
        codecs_carried(with_durations(m)),
        file_bytes(with_durations(m)).len() <= u32::MAX,
        m.samples.len() <= u32::MAX,
        lists_track(m.samples, video, places),
        track_goes(m, places, ticks),
        forall|i: int|
            0 <= i < ticks.len() ==> #[trigger] ticks[i] * 1000 < 0x1_0000_0000_0000_0000
                && ticks[i] * 1000 < 0x1_0000_0000 * clock_of(m, video),
        clock_of(m, video) >= 1000,
        1 <= k,
        k + 1 < places.len(),
        m.samples[places[k - 1]].timestamp < m.samples[places[k]].timestamp,
        (m.samples[places[k]].timestamp - m.samples[places[k - 1]].timestamp) * clock_of(m, video)
            < 0x1_0000_0000 * 1000,
    ensures
        ({
            let r = file_tracks(file_bytes(with_durations(m)));
            let s = r->Ok_0[x].samples;
            let gap = m.samples[places[k]].timestamp - m.samples[places[k - 1]].timestamp;
            &&& r is Ok
            &&& 0 <= x < r->Ok_0.len()
            &&& s.len() == places.len()
            &&& s[0].pts_ms == 0
            &&& gap - 1 <= s[k + 1].pts_ms - s[k].pts_ms <= gap
        }),
{
    let x = law_recording_keeps_track(m, video, places, ticks);
    let s = file_tracks(file_bytes(with_durations(m)))->Ok_0[x].samples;
    let j = places[k - 1];
    let i = places[k];
    let clock = clock_of(m, video);
    let gap = m.samples[i].timestamp - m.samples[j].timestamp;
    assert(j < i);
    assert forall|n: int| j < n < i implies (#[trigger] m.samples[n]).track_id != number_of(
        video,
    ) by {
        if m.samples[n].track_id == number_of(video) {
            assert(places.contains(n));
            let q = choose|q: int| 0 <= q < places.len() && places[q] == n;
            if q < k - 1 {
                assert(places[q] < places[k - 1]);
            } else if q > k {
                assert(places[k] < places[q]);
            }
        }
    }
    assert(gap * clock >= 1000) by (nonlinear_arith)
        requires
            gap >= 1,
            clock >= 1000,
    ;
    law_sample_lasts_since_the_one_before(m, video, j, i);
    assert(ticks[k + 1] == ticks[k] + with_durations(m).samples[places[k]].duration);
    assert(whole_ms(ticks[k], clock, s[k].pts_ms as int));
    assert(whole_ms(ticks[k + 1], clock, s[k + 1].pts_ms as int));
    assert(whole_ms(ticks[0], clock, s[0].pts_ms as int));
    assert(s[0].pts_ms == 0) by {
        let z = s[0].pts_ms as int;
        assert(z * clock <= 0);
        assert(z <= 0) by (nonlinear_arith)
            requires
                z * clock <= 0,
                clock >= 1000,
        ;
    }
    lemma_ms_apart(ticks[k], ticks[k + 1], clock, s[k].pts_ms as int, s[k + 1].pts_ms as int, gap);
    x
}

/// What is recorded of a frame: for audio that is not AAC its own bytes, else
/// what the codec layer made of it.
pub open spec fn records_frame(frame: FrameModel, payload: Option<Seq<u8>>, data: Seq<u8>) -> bool {
    if frame.frame_type == FrameType::Audio && frame.codec != CodecId::AAC {
        data == frame.data
    } else {
        payload == Some(data)
    }
}

/// A media frame becomes the last sample, timed since the first frame that was
/// pushed, whatever that was.
pub proof fn law_frame_is_recorded(
    m: MuxerModel,
    frame: FrameModel,
    payload: Option<Seq<u8>>,
    data: Seq<u8>,
    base: u32,
)
    requires
        !frame.config_frame,
        frame.frame_type != FrameType::Metadata,
        records_frame(frame, payload, data),
        m.base_time == Some(base) || (m.base_time is None && base == frame.timestamp),
    ensures
        ({
            let next = pushed(m, frame, false, payload);
            let s = next.samples.last();
            &&& next.samples.len() == m.samples.len() + 1
            &&& next.samples.drop_last() == m.samples
            &&& next.base_time == Some(base)
            &&& s.track_id == number_of(frame.frame_type == FrameType::Video)
            &&& s.data == data
            &&& frame.timestamp >= base ==> s.timestamp == frame.timestamp - base
            &&& frame.timestamp < base ==> s.timestamp == 0
            &&& s.is_sync == (frame.frame_type == FrameType::Video && frame.key_frame)
            &&& next.video_config == m.video_config
            &&& m.audio_config is Some ==> next.audio_config == m.audio_config
            &&& next.sample_rate == m.sample_rate
            &&& frame.frame_type == FrameType::Video ==> next.video_codec == Some(
                m.video_codec.unwrap_or(frame.codec),
            ) && next.audio_codec == m.audio_codec
            &&& frame.frame_type == FrameType::Audio ==> next.audio_codec == Some(
                m.audio_codec.unwrap_or(frame.codec),
            ) && next.video_codec == m.video_codec
        }),
{
    assert(pushed(m, frame, false, payload).samples.drop_last() =~= m.samples);
}

/// A configuration replaces the one of its track and adds no sample; the clock
/// of the recording starts with it where nothing came before.
pub proof fn law_configuration_is_recorded(
    m: MuxerModel,
    frame: FrameModel,
    is_config: bool,
    payload: Option<Seq<u8>>,
    data: Seq<u8>,
)
    requires
        frame.config_frame || is_config,
        frame.frame_type != FrameType::Metadata,
        records_frame(frame, payload, data),
    ensures
        ({
            let next = pushed(m, frame, is_config, payload);
            &&& next.samples == m.samples
            &&& next.base_time == Some(m.base_time.unwrap_or(frame.timestamp))
            &&& frame.frame_type == FrameType::Video ==> next.video_codec == Some(frame.codec)
                && next.video_config == Some(data) && next.audio_config == m.audio_config
                && next.audio_codec == m.audio_codec && next.sample_rate == m.sample_rate
            &&& frame.frame_type == FrameType::Audio ==> next.audio_codec == Some(frame.codec)
                && next.audio_config == Some(data) && next.video_config == m.video_config
                && next.video_codec == m.video_codec
        }),
{
}

/// The sampling frequencies by their index in an audio specific config.
pub open spec fn sampling_frequencies() -> Seq<u32> {
    seq![
        96000u32,
        88200,
        64000,
        48000,
        44100,
        32000,
        24000,
        22050,
        16000,
        12000,
        11025,
        8000,
        7350,
    ]
}

/// An audio specific config has five bits of object type, then four bits of
/// frequency index: the clock of the audio track ticks at that frequency once
/// the configuration is recorded.
pub proof fn law_audio_clock_is_configured(
    m: MuxerModel,
    frame: FrameModel,
    config: Seq<u8>,
    object_type: int,
    index: int,
    rest: int,
)
    requires
        frame.config_frame,
        frame.frame_type == FrameType::Audio,
        frame.codec == CodecId::AAC,
        config.len() >= 2,
        0 <= object_type < 32,
        0 <= index < 13,
        0 <= rest < 128,
        config[0] * 256 + config[1] == object_type * 2048 + index * 128 + rest,
    ensures
        clock_of(pushed(m, frame, false, Some(config)), false) == sampling_frequencies()[index],
{
    assert(config[0] as int % 8 * 2 + config[1] as int / 0x80 == index);
}

/// What the codec layer could not rewrite leaves no sample and no
/// configuration, and neither does metadata.
pub proof fn law_unwritable_frame_is_left_out(
    m: MuxerModel,
    frame: FrameModel,
    is_config: bool,
    payload: Option<Seq<u8>>,
)
    requires
        frame.frame_type == FrameType::Metadata || (payload is None && !(frame.frame_type
            == FrameType::Audio && frame.codec != CodecId::AAC)),
    ensures
        pushed(m, frame, is_config, payload).samples == m.samples,
        pushed(m, frame, is_config, payload).video_config == m.video_config,
        m.audio_config is Some ==> pushed(m, frame, is_config, payload).audio_config
            == m.audio_config,
        pushed(m, frame, is_config, payload).base_time == Some(
            m.base_time.unwrap_or(frame.timestamp),
        ),
{
}

} // verus!
