//! MP4 muxer: collects frames and writes them as one file.
use vstd::prelude::*;
use crate::bytes::{put_bytes, to_vec, views};
use crate::media::{CodecId, FrameModel, FrameType, MediaFrame};
use crate::mp4::boxes::{MDAT, MDIA, MINF, MOOV, SOUN, TRAK, VIDE, box_bytes};
use crate::mp4::records::{config_rate, config_to_sample_rate, extract_video_info, video_info};
use crate::mp4::writer::{
    check_config, config_writable, dinf_bytes, ftyp_bytes, hdlr_bytes, mdhd_bytes, mvhd_bytes, put_box,
    smhd_bytes, stco_bytes, stsc_bytes, stsd_bytes, stsz_bytes, stts_bytes, tkhd_bytes, vmhd_bytes,
    write_dinf, write_ftyp, write_hdlr, write_mdhd, write_mvhd, write_smhd, write_stco, write_stsc,
    write_stsd, write_stsz, write_stts, write_tkhd, write_vmhd,
};

verus! {

broadcast use crate::bytes::group_be_len;

/// Where the video samples begin: behind the file type box and the header of
/// the media data box.
pub const DATA_START: u32 = 40;

/// A sample that waits to be written: track 0 is video, track 1 audio.
pub struct SampleEntry {
    pub track_id: u32,
    pub data: Vec<u8>,
    /// Milliseconds since the first frame.
    pub timestamp: u32,
    /// Ticks of the track's clock.
    pub duration: u32,
    pub is_sync: bool,
}

/// The model of a waiting sample.
#[verifier::ext_equal]
pub struct EntryModel {
    pub track_id: u32,
    pub data: Seq<u8>,
    pub timestamp: u32,
    pub duration: u32,
    pub is_sync: bool,
}

impl View for SampleEntry {
    type V = EntryModel;

    open spec fn view(&self) -> EntryModel {
        EntryModel {
            track_id: self.track_id,
            data: self.data@,
            timestamp: self.timestamp,
            duration: self.duration,
            is_sync: self.is_sync,
        }
    }
}

/// Collects frames for one file.
pub struct Mp4Muxer {
    video_codec: Option<CodecId>,
    audio_codec: Option<CodecId>,
    width: u32,
    height: u32,
    fps: u32,
    sample_rate: u32,
    channels: u32,
    video_config: Option<Vec<u8>>,
    audio_config: Option<Vec<u8>>,
    samples: Vec<SampleEntry>,
    base_time: Option<u32>,
}

/// The model of a muxer.
#[verifier::ext_equal]
pub struct MuxerModel {
    pub video_codec: Option<CodecId>,
    pub audio_codec: Option<CodecId>,
    pub width: u32,
    pub height: u32,
    pub fps: u32,
    pub sample_rate: u32,
    pub channels: u32,
    pub video_config: Option<Seq<u8>>,
    pub audio_config: Option<Seq<u8>>,
    pub samples: Seq<EntryModel>,
    pub base_time: Option<u32>,
}

/// A muxer that has seen no frame.
pub open spec fn empty_muxer() -> MuxerModel {
    MuxerModel {
        video_codec: None,
        audio_codec: None,
        width: 0,
        height: 0,
        fps: 30,
        sample_rate: 0,
        channels: 0,
        video_config: None,
        audio_config: None,
        samples: Seq::empty(),
        base_time: None,
    }
}

/// The bytes of an optional buffer.
pub open spec fn opt_bytes(v: Option<Vec<u8>>) -> Option<Seq<u8>> {
    match v {
        Some(b) => Some(b@),
        None => None,
    }
}

impl View for Mp4Muxer {
    type V = MuxerModel;

    closed spec fn view(&self) -> MuxerModel {
        MuxerModel {
            video_codec: self.video_codec,
            audio_codec: self.audio_codec,
            width: self.width,
            height: self.height,
            fps: self.fps,
            sample_rate: self.sample_rate,
            channels: self.channels,
            video_config: opt_bytes(self.video_config),
            audio_config: opt_bytes(self.audio_config),
            samples: views(self.samples@),
            base_time: self.base_time,
        }
    }
}

// ── pushing frames ──────────────────────────────────────────────────────

/// The muxer after a video configuration.
pub open spec fn with_video_config(m: MuxerModel, codec: CodecId, config: Seq<u8>) -> MuxerModel {
    let m = MuxerModel { video_codec: Some(codec), video_config: Some(config), ..m };
    match video_info(codec, config) {
        Some((width, height, fps)) => MuxerModel { width, height, fps, ..m },
        None => m,
    }
}

/// The muxer after an audio configuration.
pub open spec fn with_audio_config(m: MuxerModel, codec: CodecId, config: Seq<u8>) -> MuxerModel {
    MuxerModel {
        audio_codec: Some(codec),
        audio_config: Some(config),
        sample_rate: config_rate(config),
        channels: 1,
        ..m
    }
}

/// What is stored of a frame: what the codec layer made of it, or its own
/// bytes for an audio codec that needs no rewriting.
pub open spec fn stored_bytes(frame: FrameModel, payload: Option<Seq<u8>>) -> Option<Seq<u8>> {
    if frame.frame_type == FrameType::Audio && frame.codec != CodecId::AAC {
        Some(frame.data)
    } else {
        payload
    }
}

/// Milliseconds from the first frame to this one, none before it.
pub open spec fn since(base: u32, timestamp: u32) -> u32 {
    if timestamp >= base {
        (timestamp - base) as u32
    } else {
        0
    }
}

/// The muxer once it knows which codec a media frame has.
pub open spec fn with_codec(m: MuxerModel, frame: FrameModel) -> MuxerModel {
    if frame.frame_type == FrameType::Video {
        MuxerModel {
            video_codec: if m.video_codec is None {
                Some(frame.codec)
            } else {
                m.video_codec
            },
            ..m
        }
    } else {
        MuxerModel {
            audio_codec: if m.audio_codec is None {
                Some(frame.codec)
            } else {
                m.audio_codec
            },
            audio_config: if m.audio_config is None {
                Some(Seq::empty())
            } else {
                m.audio_config
            },
            ..m
        }
    }
}

/// The muxer after a frame. The clock starts at the first frame, whatever it
/// is. A configuration replaces the one known before; a media frame becomes a
/// sample; what the codec layer could not rewrite is left out.
pub open spec fn pushed(
    m: MuxerModel,
    frame: FrameModel,
    is_config: bool,
    payload: Option<Seq<u8>>,
) -> MuxerModel {
    let base = match m.base_time {
        Some(t) => t,
        None => frame.timestamp,
    };
    let m = MuxerModel { base_time: Some(base), ..m };
    if frame.frame_type == FrameType::Metadata {
        m
    } else if frame.config_frame || is_config {
        match stored_bytes(frame, payload) {
            None => m,
            Some(config) => if frame.frame_type == FrameType::Video {
                with_video_config(m, frame.codec, config)
            } else {
                with_audio_config(m, frame.codec, config)
            },
        }
    } else {
        let m = with_codec(m, frame);
        match stored_bytes(frame, payload) {
            None => m,
            Some(data) => MuxerModel {
                samples: m.samples.push(
                    EntryModel {
                        track_id: if frame.frame_type == FrameType::Video {
                            0
                        } else {
                            1
                        },
                        data,
                        timestamp: since(base, frame.timestamp),
                        duration: 0,
                        is_sync: frame.frame_type == FrameType::Video && frame.key_frame,
                    },
                ),
                ..m
            },
        }
    }
}

// ── durations ───────────────────────────────────────────────────────────

/// Whether every sample belongs to the video track or the audio track.
pub open spec fn two_tracks(m: MuxerModel) -> bool {
    forall|i: int|
        0 <= i < m.samples.len() ==> (#[trigger] m.samples[i]).track_id == 0
            || m.samples[i].track_id == 1
}

/// A new muxer has samples of two tracks only, and a frame keeps it so: the
/// samples before it stay as they are, and at most one comes behind them.
pub proof fn law_push_keeps_order(
    m: MuxerModel,
    frame: FrameModel,
    is_config: bool,
    payload: Option<Seq<u8>>,
)
    requires
        two_tracks(m),
    ensures
        two_tracks(empty_muxer()),
        two_tracks(pushed(m, frame, is_config, payload)),
        m.samples.len() <= pushed(m, frame, is_config, payload).samples.len() <= m.samples.len()
            + 1,
        pushed(m, frame, is_config, payload).samples.take(m.samples.len() as int) == m.samples,
{
    let next = pushed(m, frame, is_config, payload);
    assert(next.samples.take(m.samples.len() as int) =~= m.samples);
    assert forall|i: int| 0 <= i < next.samples.len() implies (#[trigger] next.samples[i]).track_id
        == 0 || next.samples[i].track_id == 1 by {
        if i < m.samples.len() {
            assert(next.samples[i] == m.samples[i]);
        }
    }
}

/// Time of the last sample of the video track, or of the other one, among the
/// first `n`.
pub open spec fn last_time(samples: Seq<EntryModel>, video: bool, n: int) -> Option<u32>
    decreases n,
{
    if n <= 0 {
        None
    } else if (samples[n - 1].track_id == 0) == video {
        Some(samples[n - 1].timestamp)
    } else {
        last_time(samples, video, n - 1)
    }
}

/// The sampling frequency in use: 44.1 kHz when none is known.
pub open spec fn rate_in_use(sample_rate: u32) -> u32 {
    if sample_rate > 0 {
        sample_rate
    } else {
        44100
    }
}

/// The larger of a number and 1.
pub open spec fn max1(n: int) -> int {
    if n >= 1 {
        n
    } else {
        1
    }
}

/// Ticks of a clock in a number of milliseconds, at least one, its low 32
/// bits.
pub open spec fn scaled(ms: int, clock: int) -> int {
    max1((max1(ms) * clock / 1000) % 0x1_0000_0000)
}

/// Duration of the sample with index `i`: the time since the sample of its
/// track before it, or a nominal frame for the first one.
pub open spec fn duration_at(m: MuxerModel, i: int) -> u32 {
    let s = m.samples[i];
    let video = s.track_id == 0;
    let rate = rate_in_use(m.sample_rate);
    let fps: int = if m.fps > 0 {
        m.fps as int
    } else {
        30
    };
    match last_time(m.samples, video, i) {
        Some(previous) => if video {
            scaled(since(previous, s.timestamp) as int, 90000) as u32
        } else {
            scaled(since(previous, s.timestamp) as int, rate as int) as u32
        },
        None => if video {
            max1(90000int / fps) as u32
        } else {
            max1(rate as int / 44) as u32
        },
    }
}

/// The muxer with the duration of every sample set.
pub open spec fn with_durations(m: MuxerModel) -> MuxerModel {
    MuxerModel {
        samples: Seq::new(
            m.samples.len(),
            |i: int| EntryModel { duration: duration_at(m, i), ..m.samples[i] },
        ),
        ..m
    }
}

// ── the file ────────────────────────────────────────────────────────────

/// The samples of a track among the first `n`.
pub open spec fn entries_of(samples: Seq<EntryModel>, track_id: u32, n: int) -> Seq<EntryModel>
    decreases n,
{
    if n <= 0 {
        Seq::empty()
    } else if samples[n - 1].track_id == track_id {
        entries_of(samples, track_id, n - 1).push(samples[n - 1])
    } else {
        entries_of(samples, track_id, n - 1)
    }
}

/// The bytes of the samples, one after the other.
pub open spec fn payload_of(entries: Seq<EntryModel>) -> Seq<u8>
    decreases entries.len(),
{
    if entries.len() == 0 {
        Seq::empty()
    } else {
        payload_of(entries.drop_last()) + entries.last().data
    }
}

/// The size of each sample, its low 32 bits.
pub open spec fn sizes_of(entries: Seq<EntryModel>) -> Seq<u32> {
    Seq::new(entries.len(), |i: int| (entries[i].data.len() % 0x1_0000_0000) as u32)
}

/// The duration of each sample.
pub open spec fn durations_of(entries: Seq<EntryModel>) -> Seq<u32> {
    Seq::new(entries.len(), |i: int| entries[i].duration)
}

/// The sum of the durations.
pub open spec fn total_duration(entries: Seq<EntryModel>) -> int
    decreases entries.len(),
{
    if entries.len() == 0 {
        0
    } else {
        total_duration(entries.drop_last()) + entries.last().duration
    }
}

/// What a track box is made of.
pub struct TrackParts {
    pub track_id: u32,
    pub handler: u32,
    pub codec: CodecId,
    pub config: Seq<u8>,
    pub width: u32,
    pub height: u32,
    pub timescale: u32,
    /// Duration in ticks, its low 32 bits.
    pub duration: u32,
    pub entries: Seq<EntryModel>,
    pub chunk_offset: u32,
}

/// The body of the media information box: media header, data information and
/// the sample tables.
#[verifier::opaque]
pub open spec fn minf_bytes(t: TrackParts) -> Seq<u8> {
    Seq::<u8>::empty() + (if t.handler == VIDE {
        vmhd_bytes()
    } else {
        smhd_bytes()
    }) + dinf_bytes() + stsd_bytes(t.codec, t.config, t.width, t.height) + stts_bytes(
        durations_of(t.entries),
    ) + stsc_bytes(t.entries.len() as int) + stsz_bytes(sizes_of(t.entries)) + stco_bytes(
        t.chunk_offset,
    )
}

/// The body of the media box.
#[verifier::opaque]
pub open spec fn mdia_bytes(t: TrackParts) -> Seq<u8> {
    Seq::<u8>::empty() + mdhd_bytes(t.timescale, t.duration) + hdlr_bytes(t.handler) + box_bytes(
        MINF,
        minf_bytes(t),
    )
}

/// Duration of a track in milliseconds, its low 32 bits.
pub open spec fn track_ms(t: TrackParts) -> u32 {
    ((t.duration * 1000 / max1(t.timescale as int)) % 0x1_0000_0000) as u32
}

/// The body of the track box.
#[verifier::opaque]
pub open spec fn trak_bytes(t: TrackParts) -> Seq<u8> {
    Seq::<u8>::empty() + tkhd_bytes(t.track_id, track_ms(t), t.width, t.height) + box_bytes(
        MDIA,
        mdia_bytes(t),
    )
}

/// The video track of a muxer whose durations are set.
pub open spec fn video_parts(m: MuxerModel) -> TrackParts {
    let entries = entries_of(m.samples, 0, m.samples.len() as int);
    TrackParts {
        track_id: 1,
        handler: VIDE,
        codec: m.video_codec.unwrap_or(CodecId::H264),
        config: m.video_config.unwrap_or(Seq::empty()),
        width: m.width,
        height: m.height,
        timescale: 90000,
        duration: (total_duration(entries) % 0x1_0000_0000) as u32,
        entries,
        chunk_offset: DATA_START,
    }
}

/// The audio track of a muxer whose durations are set; its samples follow the
/// video samples.
pub open spec fn audio_parts(m: MuxerModel) -> TrackParts {
    let video = entries_of(m.samples, 0, m.samples.len() as int);
    let entries = entries_of(m.samples, 1, m.samples.len() as int);
    TrackParts {
        track_id: if video.len() > 0 {
            2
        } else {
            1
        },
        handler: SOUN,
        codec: m.audio_codec.unwrap_or(CodecId::AAC),
        config: m.audio_config.unwrap_or(Seq::empty()),
        width: 0,
        height: 0,
        timescale: rate_in_use(m.sample_rate),
        duration: (total_duration(entries) % 0x1_0000_0000) as u32,
        entries,
        chunk_offset: (DATA_START + payload_of(video).len() % 0x1_0000_0000) as u32,
    }
}

/// Duration of a track in milliseconds.
pub open spec fn parts_ms(t: TrackParts) -> int {
    if t.entries.len() > 0 {
        total_duration(t.entries) * 1000 / t.timescale as int
    } else {
        0
    }
}

/// Duration of the movie in milliseconds: that of its longer track, its low 32
/// bits.
pub open spec fn movie_ms(m: MuxerModel) -> u32 {
    let v = parts_ms(video_parts(m));
    let a = parts_ms(audio_parts(m));
    ((if v >= a {
        v
    } else {
        a
    }) % 0x1_0000_0000) as u32
}

/// The body of the movie box of a muxer whose durations are set.
#[verifier::opaque]
pub open spec fn moov_bytes(m: MuxerModel) -> Seq<u8> {
    let v = video_parts(m);
    let a = audio_parts(m);
    Seq::<u8>::empty() + mvhd_bytes(
        movie_ms(m),
        if v.entries.len() > 0 && a.entries.len() > 0 {
            3
        } else {
            2
        },
    ) + (if v.entries.len() > 0 {
        box_bytes(TRAK, trak_bytes(v))
    } else {
        Seq::empty()
    }) + (if a.entries.len() > 0 {
        box_bytes(TRAK, trak_bytes(a))
    } else {
        Seq::empty()
    })
}

/// The file of a muxer whose durations are set.
#[verifier::opaque]
pub open spec fn file_bytes(m: MuxerModel) -> Seq<u8> {
    ftyp_bytes() + box_bytes(
        MDAT,
        payload_of(video_parts(m).entries) + payload_of(audio_parts(m).entries),
    ) + box_bytes(MOOV, moov_bytes(m))
}

/// Whether the file of a muxer can be written: its configurations make a
/// sample entry, its samples can be counted, and its times and offsets fit
/// their fields.
pub open spec fn writable(m: MuxerModel) -> bool {
    let d = with_durations(m);
    let v = video_parts(d);
    let a = audio_parts(d);
    &&& m.samples.len() <= u32::MAX
    &&& v.entries.len() > 0 ==> config_writable(v.codec, v.config)
    &&& a.entries.len() > 0 ==> config_writable(a.codec, a.config)
    &&& total_duration(v.entries) * 1000 <= u64::MAX
    &&& total_duration(a.entries) * 1000 <= u64::MAX
    &&& DATA_START + payload_of(v.entries).len() % 0x1_0000_0000 <= u32::MAX
}

proof fn lemma_entries_len(samples: Seq<EntryModel>, track_id: u32, n: int)
    requires
        0 <= n <= samples.len(),
    ensures
        entries_of(samples, track_id, n).len() <= n,
    decreases n,
{
    if n > 0 {
        lemma_entries_len(samples, track_id, n - 1);
    }
}

proof fn lemma_total_grows(entries: Seq<EntryModel>, n: int)
    requires
        0 <= n <= entries.len(),
    ensures
        0 <= total_duration(entries.take(n)) <= total_duration(entries),
    decreases entries.len() - n,
{
    if n < entries.len() {
        lemma_total_grows(entries, n + 1);
        assert(entries.take(n + 1).drop_last() =~= entries.take(n));
        assert(total_duration(entries.take(n)) >= 0) by {
            lemma_total_nonneg(entries.take(n));
        }
    } else {
        assert(entries.take(n) =~= entries);
        lemma_total_nonneg(entries);
    }
}

proof fn lemma_total_nonneg(entries: Seq<EntryModel>)
    ensures
        0 <= total_duration(entries),
    decreases entries.len(),
{
    if entries.len() > 0 {
        lemma_total_nonneg(entries.drop_last());
    }
}

proof fn lemma_entries_prefix(samples: Seq<EntryModel>, track_id: u32, n: int, total: int)
    requires
        0 <= n <= total <= samples.len(),
    ensures
        entries_of(samples, track_id, n).len() <= entries_of(samples, track_id, total).len(),
        entries_of(samples, track_id, n) == entries_of(samples, track_id, total).take(
            entries_of(samples, track_id, n).len() as int,
        ),
    decreases total - n,
{
    if n < total {
        lemma_entries_prefix(samples, track_id, n, total - 1);
        let part = entries_of(samples, track_id, n);
        assert(part =~= entries_of(samples, track_id, total).take(part.len() as int));
    } else {
        let part = entries_of(samples, track_id, n);
        assert(part =~= part.take(part.len() as int));
    }
}

/// The tables of one track, gathered from the samples.
struct TrackData {
    sizes: Vec<u32>,
    durations: Vec<u32>,
    total: u64,
}

/// Gathers sizes, durations and bytes of the samples of a track.
fn gather(samples: &Vec<SampleEntry>, track_id: u32, mdat: &mut Vec<u8>) -> (r: TrackData)
    requires
        total_duration(entries_of(views(samples@), track_id, samples@.len() as int)) <= u64::MAX,
    ensures
        ({
            let entries = entries_of(views(samples@), track_id, samples@.len() as int);
            &&& r.sizes@ == sizes_of(entries)
            &&& r.durations@ == durations_of(entries)
            &&& r.total == total_duration(entries)
            &&& final(mdat)@ == old(mdat)@ + payload_of(entries)
        }),
{
    let mut sizes: Vec<u32> = Vec::new();
    let mut durations: Vec<u32> = Vec::new();
    let mut total: u64 = 0;
    let ghost models = views(samples@);
    let ghost before = mdat@;
    let mut i: usize = 0;
    assert(before + Seq::<u8>::empty() =~= before);
    while i < samples.len()
        invariant
            models == views(samples@),
            i <= samples@.len(),
            total_duration(entries_of(models, track_id, samples@.len() as int)) <= u64::MAX,
            sizes@ =~= sizes_of(entries_of(models, track_id, i as int)),
            durations@ =~= durations_of(entries_of(models, track_id, i as int)),
            total == total_duration(entries_of(models, track_id, i as int)),
            mdat@ == before + payload_of(entries_of(models, track_id, i as int)),
        decreases samples@.len() - i,
    {
        assert(models[i as int] == samples@[i as int]@);
        let ghost part = entries_of(models, track_id, i as int);
        let ghost next = entries_of(models, track_id, i + 1);
        if samples[i].track_id == track_id {
            proof {
                let all = entries_of(models, track_id, samples@.len() as int);
                lemma_entries_prefix(models, track_id, i + 1, samples@.len() as int);
                lemma_total_grows(all, next.len() as int);
                assert(next.drop_last() =~= part);
                assert(next.last() == models[i as int]);
            }
            sizes.push((samples[i].data.len() as u64 % 0x1_0000_0000) as u32);
            durations.push(samples[i].duration);
            total = total + samples[i].duration as u64;
            put_bytes(mdat, samples[i].data.as_slice());
            assert(mdat@ =~= before + payload_of(next));
        }
        i = i + 1;
    }
    TrackData { sizes, durations, total }
}

/// How many samples a track has, how long they last, and how many bytes they
/// have, of which the lower 32 bits count.
fn measure(samples: &Vec<SampleEntry>, track_id: u32) -> (r: (usize, u64, u32))
    requires
        samples@.len() <= u32::MAX,
    ensures
        ({
            let entries = entries_of(views(samples@), track_id, samples@.len() as int);
            &&& r.0 == entries.len()
            &&& r.1 == total_duration(entries)
            &&& r.2 == payload_of(entries).len() % 0x1_0000_0000
        }),
{
    let ghost models = views(samples@);
    let mut count: usize = 0;
    let mut total: u64 = 0;
    let mut bytes: u32 = 0;
    let mut i: usize = 0;
    while i < samples.len()
        invariant
            models == views(samples@),
            i <= samples@.len() <= u32::MAX,
            count <= i,
            total <= i * u32::MAX,
            count == entries_of(models, track_id, i as int).len(),
            total == total_duration(entries_of(models, track_id, i as int)),
            bytes == payload_of(entries_of(models, track_id, i as int)).len() % 0x1_0000_0000,
        decreases samples@.len() - i,
    {
        assert(models[i as int] == samples@[i as int]@);
        assert(i * u32::MAX + u32::MAX == (i + 1) * u32::MAX) by (nonlinear_arith);
        assert((i + 1) * u32::MAX <= u32::MAX * u32::MAX) by (nonlinear_arith)
            requires
                i + 1 <= u32::MAX,
        ;
        if samples[i].track_id == track_id {
            proof {
                let next = entries_of(models, track_id, i + 1);
                assert(next.drop_last() =~= entries_of(models, track_id, i as int));
                assert(next.last() == models[i as int]);
            }
            count = count + 1;
            total = total + samples[i].duration as u64;
            bytes = ((bytes as u64 + samples[i].data.len() as u64 % 0x1_0000_0000) % 0x1_0000_0000)
                as u32;
        }
        i = i + 1;
    }
    (count, total, bytes)
}

/// Durations that were set are set to the same again, so that a file that is
/// written again has the same bytes.
pub proof fn law_durations_stay(m: MuxerModel)
    ensures
        with_durations(with_durations(m)) == with_durations(m),
        file_bytes(with_durations(with_durations(m))) == file_bytes(with_durations(m)),
{
    let d = with_durations(m);
    assert forall|i: int| 0 <= i < m.samples.len() implies duration_at(d, i) == duration_at(
        m,
        i,
    ) by {
        lemma_last_time_stays(m, d, d.samples[i].track_id == 0, i);
    }
    assert(with_durations(d).samples =~= d.samples);
}

proof fn lemma_last_time_stays(m: MuxerModel, d: MuxerModel, video: bool, n: int)
    requires
        d == with_durations(m),
        0 <= n <= m.samples.len(),
    ensures
        last_time(d.samples, video, n) == last_time(m.samples, video, n),
    decreases n,
{
    if n > 0 {
        lemma_last_time_stays(m, d, video, n - 1);
    }
}

/// Appends a track box.
#[verifier::spinoff_prover]
fn write_trak(
    buf: &mut Vec<u8>,
    track_id: u32,
    handler: u32,
    codec: CodecId,
    config: &[u8],
    width: u32,
    height: u32,
    timescale: u32,
    duration: u32,
    sizes: &Vec<u32>,
    durations: &Vec<u32>,
    chunk_offset: u32,
    Ghost(t): Ghost<TrackParts>,
)
    requires
        config_writable(codec, config@),
        t.track_id == track_id,
        t.handler == handler,
        t.codec == codec,
        t.config == config@,
        t.width == width,
        t.height == height,
        t.timescale == timescale,
        t.duration == duration,
        t.chunk_offset == chunk_offset,
        sizes@ == sizes_of(t.entries),
        durations@ == durations_of(t.entries),
        t.entries.len() <= u32::MAX,
    ensures
        final(buf)@ == old(buf)@ + box_bytes(TRAK, trak_bytes(t)),
{
    let divisor: u64 = if timescale >= 1 {
        timescale as u64
    } else {
        1
    };
    let ms: u32 = ((duration as u64 * 1000 / divisor) % 0x1_0000_0000) as u32;
    let mut trak: Vec<u8> = Vec::new();
    write_tkhd(&mut trak, track_id, ms, width, height);
    let mut minf: Vec<u8> = Vec::new();
    if handler == VIDE {
        write_vmhd(&mut minf);
    } else {
        write_smhd(&mut minf);
    }
    write_dinf(&mut minf);
    write_stsd(&mut minf, codec, config, width, height);
    write_stts(&mut minf, durations);
    write_stsc(&mut minf, sizes.len() as u32);
    write_stsz(&mut minf, sizes);
    write_stco(&mut minf, chunk_offset);
    assert(minf@ == minf_bytes(t)) by {
        reveal(minf_bytes);
    }
    let mut mdia: Vec<u8> = Vec::new();
    write_mdhd(&mut mdia, timescale, duration);
    write_hdlr(&mut mdia, handler);
    put_box(&mut mdia, MINF, minf.as_slice());
    assert(mdia@ == mdia_bytes(t)) by {
        reveal(mdia_bytes);
    }
    put_box(&mut trak, MDIA, mdia.as_slice());
    assert(trak@ == trak_bytes(t)) by {
        reveal(trak_bytes);
    }
    put_box(buf, TRAK, trak.as_slice());
}

/// A copy of an optional configuration, empty when there is none.
fn config_or_empty(config: &Option<Vec<u8>>) -> (r: Vec<u8>)
    ensures
        r@ == opt_bytes(*config).unwrap_or(Seq::empty()),
{
    match config {
        Some(c) => to_vec(c.as_slice()),
        None => Vec::new(),
    }
}

/// Ticks of a clock in a number of milliseconds.
fn scale(ms: u32, clock: u32) -> (r: u32)
    ensures
        r == scaled(ms as int, clock as int),
{
    let ms: u64 = if ms >= 1 {
        ms as u64
    } else {
        1
    };
    assert(0 <= ms * clock <= 0xffff_ffff * 0xffff_ffff) by (nonlinear_arith)
        requires
            0 <= ms <= 0xffff_ffff,
            0 <= clock <= 0xffff_ffff,
    ;
    let ticks: u32 = ((ms * clock as u64 / 1000) % 0x1_0000_0000) as u32;
    if ticks >= 1 {
        ticks
    } else {
        1
    }
}

/// Milliseconds from `base` to `timestamp`, none before it.
fn elapsed(base: u32, timestamp: u32) -> (r: u32)
    ensures
        r == since(base, timestamp),
{
    if timestamp >= base {
        timestamp - base
    } else {
        0
    }
}

impl Mp4Muxer {
    /// A muxer that has seen no frame.
    pub fn new() -> (r: Self)
        ensures
            r@ == empty_muxer(),
    {
        let r = Self {
            video_codec: None,
            audio_codec: None,
            width: 0,
            height: 0,
            fps: 30,
            sample_rate: 0,
            channels: 0,
            video_config: None,
            audio_config: None,
            samples: Vec::new(),
            base_time: None,
        };
        assert(views(r.samples@) =~= Seq::empty());
        r
    }

    /// Takes a frame. `is_config` says whether the payload looks like a
    /// decoder configuration. `payload` is what the codec layer made of the
    /// frame: the decoder configuration record of a configuration, the
    /// length-prefixed NAL units of a video frame, the raw access unit of an
    /// AAC frame; `None` when it could not.
    pub fn push_frame(&mut self, frame: &MediaFrame, is_config: bool, payload: Option<Vec<u8>>)
        ensures
            final(self)@ == pushed(old(self)@, frame@, is_config, opt_bytes(payload)),
    {
        let base: u32 = match self.base_time {
            Some(t) => t,
            None => frame.timestamp,
        };
        self.base_time = Some(base);
        let is_video: bool = match frame.frame_type {
            FrameType::Video => true,
            FrameType::Audio => false,
            FrameType::Metadata => {
                return ;
            },
        };
        let stored: Option<Vec<u8>> = if !is_video && frame.codec != CodecId::AAC {
            Some(to_vec(frame.data.as_slice()))
        } else {
            payload
        };
        if frame.config_frame || is_config {
            if let Some(config) = stored {
                if is_video {
                    self.video_codec = Some(frame.codec);
                    if let Some((width, height, fps)) = extract_video_info(
                        frame.codec,
                        config.as_slice(),
                    ) {
                        self.width = width;
                        self.height = height;
                        self.fps = fps;
                    }
                    self.video_config = Some(config);
                } else {
                    self.audio_codec = Some(frame.codec);
                    self.sample_rate = config_to_sample_rate(config.as_slice());
                    self.channels = 1;
                    self.audio_config = Some(config);
                }
            }
            return ;
        }
        if is_video {
            if self.video_codec.is_none() {
                self.video_codec = Some(frame.codec);
            }
        } else {
            if self.audio_codec.is_none() {
                self.audio_codec = Some(frame.codec);
            }
            if self.audio_config.is_none() {
                let nothing: Vec<u8> = Vec::new();
                assert(nothing@ =~= Seq::empty());
                self.audio_config = Some(nothing);
            }
        }
        if let Some(data) = stored {
            let ghost before = views(self.samples@);
            let entry = SampleEntry {
                track_id: if is_video {
                    0
                } else {
                    1
                },
                data,
                timestamp: elapsed(base, frame.timestamp),
                duration: 0,
                is_sync: is_video && frame.key_frame,
            };
            self.samples.push(entry);
            assert(views(self.samples@) =~= before.push(entry@));
        }
    }

    /// The samples that wait to be written.
    pub fn samples(&self) -> (r: &Vec<SampleEntry>)
        ensures
            views(r@) == self@.samples,
    {
        &self.samples
    }

    /// Sets the duration of every sample.
    pub fn compute_durations(&mut self)
        ensures
            final(self)@ == with_durations(old(self)@),
    {
        let ghost m = self@;
        let rate: u32 = if self.sample_rate > 0 {
            self.sample_rate
        } else {
            44100
        };
        let fps: u32 = if self.fps > 0 {
            self.fps
        } else {
            30
        };
        let mut last_video: Option<u32> = None;
        let mut last_audio: Option<u32> = None;
        let mut i: usize = 0;
        while i < self.samples.len()
            invariant
                i <= self.samples@.len() == m.samples.len(),
                self@ == (MuxerModel { samples: views(self.samples@), ..m }),
                rate == rate_in_use(m.sample_rate),
                fps > 0,
                fps == if m.fps > 0 {
                    m.fps
                } else {
                    30
                },
                last_video == last_time(m.samples, true, i as int),
                last_audio == last_time(m.samples, false, i as int),
                forall|j: int|
                    0 <= j < i ==> (#[trigger] self.samples@[j])@ == (EntryModel {
                        duration: duration_at(m, j),
                        ..m.samples[j]
                    }),
                forall|j: int|
                    i <= j < m.samples.len() ==> (#[trigger] self.samples@[j])@ == m.samples[j],
            decreases self.samples@.len() - i,
        {
            assert(self.samples@[i as int]@ == m.samples[i as int]);
            let timestamp: u32 = self.samples[i].timestamp;
            let duration: u32 = if self.samples[i].track_id == 0 {
                let d: u32 = match last_video {
                    Some(previous) => scale(elapsed(previous, timestamp), 90000),
                    None => if 90000 / fps >= 1 {
                        90000 / fps
                    } else {
                        1
                    },
                };
                last_video = Some(timestamp);
                d
            } else {
                let d: u32 = match last_audio {
                    Some(previous) => scale(elapsed(previous, timestamp), rate),
                    None => if rate / 44 >= 1 {
                        rate / 44
                    } else {
                        1
                    },
                };
                last_audio = Some(timestamp);
                d
            };
            self.samples[i].duration = duration;
            i = i + 1;
        }
        proof {
            assert(views(self.samples@) =~= with_durations(m).samples);
        }
    }

    /// Whether the file can be written; sets the durations of the samples.
    pub fn can_finalize(&mut self) -> (r: bool)
        ensures
            final(self)@ == with_durations(old(self)@),
            r == writable(old(self)@),
            r == writable(final(self)@),
    {
        self.compute_durations();
        proof {
            law_durations_stay(old(self)@);
        }
        if self.samples.len() as u64 > u32::MAX as u64 {
            return false;
        }
        let (videos, video_total, video_bytes): (usize, u64, u32) = measure(&self.samples, 0);
        let (audios, audio_total, _): (usize, u64, u32) = measure(&self.samples, 1);
        let video_codec = match self.video_codec {
            Some(c) => c,
            None => CodecId::H264,
        };
        let video_config = config_or_empty(&self.video_config);
        let video_ok: bool = videos == 0 || check_config(video_codec, video_config.as_slice());
        let audio_codec = match self.audio_codec {
            Some(c) => c,
            None => CodecId::AAC,
        };
        let audio_config = config_or_empty(&self.audio_config);
        let audio_ok: bool = audios == 0 || check_config(audio_codec, audio_config.as_slice());
        video_ok && audio_ok && video_total <= u64::MAX / 1000 && audio_total <= u64::MAX / 1000
            && video_bytes <= u32::MAX - DATA_START
    }

    /// Writes the file: file type, media data and movie header. A muxer
    /// without samples writes nothing.
    pub fn finalize(&mut self) -> (r: Vec<u8>)
        requires
            writable(old(self)@),
        ensures
            old(self)@.samples.len() == 0 ==> r@.len() == 0 && final(self)@ == old(self)@,
            old(self)@.samples.len() > 0 ==> final(self)@ == with_durations(old(self)@) && r@
                == file_bytes(with_durations(old(self)@)),
    {
        if self.samples.len() == 0 {
            return Vec::new();
        }
        self.compute_durations();
        let ghost m = self@;
        let ghost v = video_parts(m);
        let ghost a = audio_parts(m);
        proof {
            lemma_entries_len(m.samples, 0, m.samples.len() as int);
            lemma_entries_len(m.samples, 1, m.samples.len() as int);
        }
        let mut mdat: Vec<u8> = Vec::new();
        let video = gather(&self.samples, 0, &mut mdat);
        assert(mdat@ =~= payload_of(v.entries));
        let audio_offset: u32 = (mdat.len() as u64 % 0x1_0000_0000) as u32;
        let audio = gather(&self.samples, 1, &mut mdat);
        let has_video: bool = video.sizes.len() > 0;
        let has_audio: bool = audio.sizes.len() > 0;
        let rate: u32 = if self.sample_rate > 0 {
            self.sample_rate
        } else {
            44100
        };
        let video_ms: u64 = if has_video {
            video.total * 1000 / 90000
        } else {
            0
        };
        let audio_ms: u64 = if has_audio {
            audio.total * 1000 / rate as u64
        } else {
            0
        };
        let longer: u64 = if video_ms >= audio_ms {
            video_ms
        } else {
            audio_ms
        };
        let mut moov: Vec<u8> = Vec::new();
        write_mvhd(
            &mut moov,
            (longer % 0x1_0000_0000) as u32,
            if has_video && has_audio {
                3
            } else {
                2
            },
        );
        let ghost head = moov@;
        assert(head + Seq::<u8>::empty() =~= head);
        if has_video {
            let codec = match self.video_codec {
                Some(c) => c,
                None => CodecId::H264,
            };
            let config = config_or_empty(&self.video_config);
            write_trak(
                &mut moov,
                1,
                VIDE,
                codec,
                config.as_slice(),
                self.width,
                self.height,
                90000,
                (video.total % 0x1_0000_0000) as u32,
                &video.sizes,
                &video.durations,
                DATA_START,
                Ghost(v),
            );
        }
        let ghost middle = moov@;
        assert(middle + Seq::<u8>::empty() =~= middle);
        if has_audio {
            let codec = match self.audio_codec {
                Some(c) => c,
                None => CodecId::AAC,
            };
            let config = config_or_empty(&self.audio_config);
            write_trak(
                &mut moov,
                if has_video {
                    2
                } else {
                    1
                },
                SOUN,
                codec,
                config.as_slice(),
                0,
                0,
                rate,
                (audio.total % 0x1_0000_0000) as u32,
                &audio.sizes,
                &audio.durations,
                DATA_START + audio_offset,
                Ghost(a),
            );
        }
        assert(moov@ =~= moov_bytes(m)) by {
            reveal(moov_bytes);
        }
        let mut output: Vec<u8> = Vec::new();
        write_ftyp(&mut output);
        assert(output@ =~= ftyp_bytes());
        put_box(&mut output, MDAT, mdat.as_slice());
        put_box(&mut output, MOOV, moov.as_slice());
        reveal(file_bytes);
        output
    }
}

impl Default for Mp4Muxer {
    fn default() -> (r: Self)
        ensures
            r@ == empty_muxer(),
    {
        Mp4Muxer::new()
    }
}

} // verus!
