//! Fragmented MP4 (CMAF) muxer: an initialization segment (ftyp + moov) and
//! media segments (styp + moof + mdat).
use vstd::prelude::*;
use crate::bytes::{
    be16, be32, be64, put_bytes, put_u16, put_u32, put_u64, same_bytes, slice, to_vec, views,
};
use crate::media::{CodecId, FrameModel, FrameType, MediaFrame, PayloadFormat};
use crate::mp4::boxes::{
    AVC1, AVCC, DINF, DREF, ESDS, FTYP, HVC1, HVCC, MDAT, MDIA, MFHD, MINF, MOOF, MOOV, MP4A, SOUN,
    STBL, STCO, STSC, STSD, STSZ, STTS, STYP, TFDT, TFHD, TKHD, TRAF, TRAK, TRUN, URL_, VIDE,
    box_bytes,
};
use crate::mp4::muxer::{opt_bytes, since};
use crate::mp4::writer::{
    ISOM, MP41, audio_fields, full_box_bytes, hdlr_bytes, mdhd_bytes, mvhd_bytes, put_audio_fields,
    put_box, put_tkhd_fields, put_visual_fields, put_zeros, smhd_bytes, tkhd_fields, visual_fields,
    vmhd_bytes, write_full_box, write_hdlr, write_mdhd, write_mvhd, write_smhd, write_vmhd, zeros,
};

verus! {

broadcast use crate::bytes::group_be_len;

/// The brands `iso6`, `cmfc`, `msdh` and `msix`.
pub const ISO6: u32 = 0x6973_6f36;
pub const CMFC: u32 = 0x636d_6663;
pub const MSDH: u32 = 0x6d73_6468;
pub const MSIX: u32 = 0x6d73_6978;
/// Sample entries of the VP8, VP9 and AV1 codecs, and their configuration box.
pub const VP08: u32 = 0x7670_3038;
pub const VP09: u32 = 0x7670_3039;
pub const AV01: u32 = 0x6176_3031;
pub const VPCC: u32 = 0x7670_6343;

/// A segment ready for delivery.
#[derive(Debug)]
pub struct Fmp4Segment {
    /// Whether this is the initialization segment.
    pub is_init: bool,
    /// 0 for the initialization segment, counting for media segments.
    pub sequence: u64,
    pub data: Vec<u8>,
    /// Start time in ticks.
    pub start_time: u64,
    /// Duration in ticks.
    pub duration: u64,
}

/// The model of a segment.
#[verifier::ext_equal]
pub struct SegmentModel {
    pub is_init: bool,
    pub sequence: u64,
    pub data: Seq<u8>,
    pub start_time: u64,
    pub duration: u64,
}

impl View for Fmp4Segment {
    type V = SegmentModel;

    open spec fn view(&self) -> SegmentModel {
        SegmentModel {
            is_init: self.is_init,
            sequence: self.sequence,
            data: self.data@,
            start_time: self.start_time,
            duration: self.duration,
        }
    }
}

/// A sample that waits for its segment.
#[derive(Debug)]
pub struct Fmp4Sample {
    pub data: Vec<u8>,
    /// Milliseconds since the first frame.
    pub timestamp: u32,
    /// Duration in ticks.
    pub duration: u32,
    pub is_sync: bool,
}

/// The model of a waiting sample.
#[verifier::ext_equal]
pub struct FragmentSample {
    pub data: Seq<u8>,
    pub timestamp: u32,
    pub duration: u32,
    pub is_sync: bool,
}

impl View for Fmp4Sample {
    type V = FragmentSample;

    open spec fn view(&self) -> FragmentSample {
        FragmentSample {
            data: self.data@,
            timestamp: self.timestamp,
            duration: self.duration,
            is_sync: self.is_sync,
        }
    }
}

/// Fragmented MP4 muxer for live streaming.
pub struct Fmp4Muxer {
    video_timescale: u32,
    video_codec: Option<CodecId>,
    audio_codec: Option<CodecId>,
    video_config: Option<Vec<u8>>,
    audio_config: Option<Vec<u8>>,
    width: u32,
    height: u32,
    audio_sample_rate: u32,
    audio_channels: u32,
    video_samples: Vec<Fmp4Sample>,
    audio_samples: Vec<Fmp4Sample>,
    base_timestamp: Option<u32>,
    segment_seq: u64,
    segment_start_time: u64,
    total_duration: u64,
    largest_video_sample: usize,
    largest_audio_sample: usize,
}

/// The model of a muxer.
#[verifier::ext_equal]
pub struct Fmp4Model {
    pub video_timescale: u32,
    pub video_codec: Option<CodecId>,
    pub audio_codec: Option<CodecId>,
    pub video_config: Option<Seq<u8>>,
    pub audio_config: Option<Seq<u8>>,
    pub width: u32,
    pub height: u32,
    pub audio_sample_rate: u32,
    pub audio_channels: u32,
    pub video_samples: Seq<FragmentSample>,
    pub audio_samples: Seq<FragmentSample>,
    pub base_timestamp: Option<u32>,
    pub segment_seq: u64,
    pub segment_start_time: u64,
    pub total_duration: u64,
    pub largest_video_sample: usize,
    pub largest_audio_sample: usize,
}

impl View for Fmp4Muxer {
    type V = Fmp4Model;

    closed spec fn view(&self) -> Fmp4Model {
        Fmp4Model {
            video_timescale: self.video_timescale,
            video_codec: self.video_codec,
            audio_codec: self.audio_codec,
            video_config: opt_bytes(self.video_config),
            audio_config: opt_bytes(self.audio_config),
            width: self.width,
            height: self.height,
            audio_sample_rate: self.audio_sample_rate,
            audio_channels: self.audio_channels,
            video_samples: views(self.video_samples@),
            audio_samples: views(self.audio_samples@),
            base_timestamp: self.base_timestamp,
            segment_seq: self.segment_seq,
            segment_start_time: self.segment_start_time,
            total_duration: self.total_duration,
            largest_video_sample: self.largest_video_sample,
            largest_audio_sample: self.largest_audio_sample,
        }
    }
}

/// A muxer that has seen no frame.
pub open spec fn empty_fmp4(video_timescale: u32) -> Fmp4Model {
    Fmp4Model {
        video_timescale,
        video_codec: None,
        audio_codec: None,
        video_config: None,
        audio_config: None,
        width: 640,
        height: 480,
        audio_sample_rate: 44100,
        audio_channels: 2,
        video_samples: Seq::empty(),
        audio_samples: Seq::empty(),
        base_timestamp: None,
        segment_seq: 0,
        segment_start_time: 0,
        total_duration: 0,
        largest_video_sample: 0,
        largest_audio_sample: 0,
    }
}

/// The larger of two numbers.
pub open spec fn larger(a: int, b: int) -> int {
    if a >= b {
        a
    } else {
        b
    }
}

/// The configuration behind a 5-byte FLV video header.
pub open spec fn behind_video_header(data: Seq<u8>) -> Seq<u8> {
    if data.len() >= 5 {
        data.skip(5)
    } else {
        data
    }
}

/// The configuration behind a 2-byte FLV audio header, which begins with 0xAF.
pub open spec fn behind_audio_header(data: Seq<u8>) -> Seq<u8> {
    if data.len() > 2 && data[0] == 0xaf {
        data.skip(2)
    } else {
        data
    }
}

/// The decoder configuration that a frame holds, by its codec and by how its
/// payload is laid out: a record is taken whole, and from other layouts the FLV
/// header is taken off. Parameter sets with start codes are no record.
pub open spec fn fragment_config_of(frame: FrameModel) -> Option<Seq<u8>> {
    match frame.codec {
        CodecId::H264 | CodecId::H265 => match frame.payload_format {
            PayloadFormat::Avcc | PayloadFormat::Hvcc => Some(frame.data),
            PayloadFormat::AnnexB => None,
            _ => Some(behind_video_header(frame.data)),
        },
        CodecId::AAC => match frame.payload_format {
            PayloadFormat::AacAudioSpecificConfig => Some(frame.data),
            _ => Some(behind_audio_header(frame.data)),
        },
        _ => Some(frame.data),
    }
}

/// What is kept of a configuration: what the frame holds, or else the record
/// that the codec layer made of it.
pub open spec fn kept_config(frame: FrameModel, payload: Option<Seq<u8>>) -> Option<Seq<u8>> {
    match fragment_config_of(frame) {
        Some(config) => Some(config),
        None => payload,
    }
}

/// What is stored of a media frame: what the codec layer made of it, or its own
/// bytes for a codec that needs no rewriting.
pub open spec fn fragment_bytes(frame: FrameModel, payload: Option<Seq<u8>>) -> Option<Seq<u8>> {
    match frame.codec {
        CodecId::H264 | CodecId::H265 | CodecId::AAC => payload,
        _ => Some(frame.data),
    }
}

/// The decoder configuration that a frame holds.
pub fn fragment_config(frame: &MediaFrame) -> (r: Option<Vec<u8>>)
    ensures
        same_bytes(r, fragment_config_of(frame@)),
{
    let data = frame.data.as_slice();
    let len: usize = data.len();
    match frame.codec {
        CodecId::H264 | CodecId::H265 => match frame.payload_format {
            PayloadFormat::Avcc | PayloadFormat::Hvcc => Some(to_vec(data)),
            PayloadFormat::AnnexB => None,
            _ => {
                let from: usize = if len >= 5 {
                    5
                } else {
                    0
                };
                let config = slice(data, from, len);
                assert(config@ =~= behind_video_header(data@));
                Some(to_vec(config))
            },
        },
        CodecId::AAC => match frame.payload_format {
            PayloadFormat::AacAudioSpecificConfig => Some(to_vec(data)),
            _ => {
                let from: usize = if len > 2 && data[0] == 0xaf {
                    2
                } else {
                    0
                };
                let config = slice(data, from, len);
                assert(config@ =~= behind_audio_header(data@));
                Some(to_vec(config))
            },
        },
        _ => Some(to_vec(data)),
    }
}

/// The muxer after a frame. The clock starts at the first frame. A
/// configuration is kept for the initialization segment; a media frame becomes
/// a sample that lasts a 25th of a second; what must be rewritten and the codec
/// layer could not rewrite is left out.
pub open spec fn fmp4_pushed(
    m: Fmp4Model,
    frame: FrameModel,
    payload: Option<Seq<u8>>,
) -> Fmp4Model {
    let base = match m.base_timestamp {
        Some(t) => t,
        None => frame.timestamp,
    };
    let m = Fmp4Model { base_timestamp: Some(base), ..m };
    if frame.config_frame {
        match (frame.frame_type, kept_config(frame, payload)) {
            (FrameType::Video, Some(config)) => Fmp4Model {
                video_codec: Some(frame.codec),
                video_config: Some(config),
                ..m
            },
            (FrameType::Audio, Some(config)) => Fmp4Model {
                audio_codec: Some(frame.codec),
                audio_config: Some(config),
                ..m
            },
            _ => m,
        }
    } else {
        let rel = since(base, frame.timestamp);
        let duration = m.video_timescale / 25;
        let end = rel * m.video_timescale / 1000 + duration;
        let timed = Fmp4Model { total_duration: larger(m.total_duration as int, end) as u64, ..m };
        if frame.frame_type == FrameType::Metadata {
            timed
        } else {
            match fragment_bytes(frame, payload) {
                None => m,
                Some(data) => {
                    let sample = FragmentSample {
                        data,
                        timestamp: rel,
                        duration,
                        is_sync: frame.key_frame,
                    };
                    if frame.frame_type == FrameType::Video {
                        Fmp4Model {
                            video_samples: m.video_samples.push(sample),
                            largest_video_sample: larger(
                                m.largest_video_sample as int,
                                data.len() as int,
                            ) as usize,
                            ..timed
                        }
                    } else {
                        Fmp4Model {
                            audio_samples: m.audio_samples.push(sample),
                            largest_audio_sample: larger(
                                m.largest_audio_sample as int,
                                data.len() as int,
                            ) as usize,
                            ..timed
                        }
                    }
                },
            }
        }
    }
}

// ── initialization segment ──────────────────────────────────────────────

/// The file type box: a CMAF file.
#[verifier::opaque]
pub open spec fn cmaf_ftyp_bytes(video_codec: Option<CodecId>) -> Seq<u8> {
    box_bytes(
        FTYP,
        Seq::<u8>::empty() + be32(
            if video_codec == Some(CodecId::H265) {
                ISO6 as int
            } else {
                ISOM as int
            },
        ) + be32(0x200) + be32(ISO6 as int) + be32(MP41 as int) + be32(CMFC as int),
    )
}

/// `AVC Coding`, padded to 32 bytes.
pub open spec fn avc_name() -> Seq<u8> {
    seq![0x41u8, 0x56, 0x43, 0x20, 0x43, 0x6f, 0x64, 0x69, 0x6e, 0x67] + zeros(22)
}

/// `HEVC Coding`, padded to 32 bytes.
pub open spec fn hevc_name() -> Seq<u8> {
    seq![0x48u8, 0x45, 0x56, 0x43, 0x20, 0x43, 0x6f, 0x64, 0x69, 0x6e, 0x67] + zeros(21)
}

/// `VP Coding`, padded to 32 bytes.
pub open spec fn vp_name() -> Seq<u8> {
    seq![0x56u8, 0x50, 0x20, 0x43, 0x6f, 0x64, 0x69, 0x6e, 0x67] + zeros(23)
}

/// `google`, padded to 8 bytes.
pub open spec fn vp_vendor() -> Seq<u8> {
    seq![0x67u8, 0x6f, 0x6f, 0x67, 0x6c, 0x65, 0, 0]
}

/// The fixed fields of a VP8, VP9 or AV1 sample entry.
pub open spec fn vp_fields(width: u32, height: u32) -> Seq<u8> {
    Seq::<u8>::empty() + zeros(6) + be16(1) + be16(0) + be16(0) + vp_vendor() + be16(
        width as int % 0x1_0000,
    ) + be16(height as int % 0x1_0000) + be32(0x48_0000) + be32(0x48_0000) + be32(0) + be16(1)
        + vp_name() + be16(24) + be16(0xffff)
}

/// The body of the elementary stream box for an audio specific config.
pub open spec fn cmaf_esds(asc: Seq<u8>) -> Seq<u8> {
    Seq::<u8>::empty() + be32(0) + seq![0x03u8, 0x19, 0, 1, 0, 0x04, 0x11, 0x40, 0x15, 0, 0, 0]
        + be32(0x1_f400) + be32(0x1_f400) + seq![0x05u8, (asc.len() % 0x100) as u8] + asc + seq![
        0x06u8,
        0x01,
        0x02,
    ]
}

/// The sample entry of a codec; none for a codec that segments do not carry.
pub open spec fn cmaf_entry(
    codec: CodecId,
    config: Seq<u8>,
    width: u32,
    height: u32,
    timescale: u32,
    channels: u32,
) -> Seq<u8> {
    match codec {
        CodecId::H264 => box_bytes(
            AVC1,
            visual_fields(width, height, avc_name()) + box_bytes(AVCC, config),
        ),
        CodecId::H265 => box_bytes(
            HVC1,
            visual_fields(width, height, hevc_name()) + box_bytes(HVCC, config),
        ),
        CodecId::AAC => box_bytes(
            MP4A,
            audio_fields(channels, timescale) + box_bytes(ESDS, cmaf_esds(config)),
        ),
        CodecId::VP8 => box_bytes(VP08, vp_fields(width, height) + box_bytes(VPCC, config)),
        CodecId::VP9 => box_bytes(VP09, vp_fields(width, height) + box_bytes(VPCC, config)),
        CodecId::AV1 => box_bytes(AV01, vp_fields(width, height) + box_bytes(VPCC, config)),
        _ => Seq::empty(),
    }
}

/// What a track of the initialization segment is made of.
pub struct InitTrack {
    pub track_id: u32,
    pub codec: CodecId,
    pub config: Seq<u8>,
    pub width: u32,
    pub height: u32,
    pub timescale: u32,
    pub channels: u32,
}

/// Whether a track is written with the headers of a video track.
pub open spec fn is_picture(codec: CodecId) -> bool {
    codec == CodecId::H264 || codec == CodecId::H265
}

/// The handler of a track.
pub open spec fn handler_of(codec: CodecId) -> u32 {
    if is_picture(codec) {
        VIDE
    } else {
        SOUN
    }
}

/// The body of the sample description of an initialization segment.
pub open spec fn init_stsd(t: InitTrack) -> Seq<u8> {
    Seq::<u8>::empty() + be32(0) + be32(1) + cmaf_entry(
        t.codec,
        t.config,
        t.width,
        t.height,
        t.timescale,
        t.channels,
    )
}

/// The body of the sample table box: a sample description and empty tables.
#[verifier::opaque]
pub open spec fn init_stbl(t: InitTrack) -> Seq<u8> {
    Seq::<u8>::empty() + box_bytes(STSD, init_stsd(t)) + box_bytes(STTS, be32(0)) + box_bytes(
        STSC,
        be32(0),
    ) + box_bytes(STSZ, zeros(8)) + box_bytes(STCO, be32(0))
}

/// The data information box of an initialization segment.
pub open spec fn init_dinf() -> Seq<u8> {
    box_bytes(DINF, box_bytes(DREF, Seq::<u8>::empty() + be32(0) + be32(1) + box_bytes(URL_, be32(0))))
}

/// The body of the media information box.
#[verifier::opaque]
pub open spec fn init_minf(t: InitTrack) -> Seq<u8> {
    Seq::<u8>::empty() + (if is_picture(t.codec) {
        vmhd_bytes()
    } else {
        smhd_bytes()
    }) + init_dinf() + box_bytes(STBL, init_stbl(t))
}

/// The body of the media box.
#[verifier::opaque]
pub open spec fn init_mdia(t: InitTrack) -> Seq<u8> {
    Seq::<u8>::empty() + mdhd_bytes(t.timescale, 0) + hdlr_bytes(handler_of(t.codec)) + box_bytes(
        MINF,
        init_minf(t),
    )
}

/// The body of the track box.
#[verifier::opaque]
pub open spec fn init_trak(t: InitTrack) -> Seq<u8> {
    Seq::<u8>::empty() + full_box_bytes(
        TKHD,
        0,
        7,
        tkhd_fields(t.track_id, 0, 0x0100, t.width, t.height),
    ) + box_bytes(MDIA, init_mdia(t))
}

/// The video track of the initialization segment, once its configuration is
/// known.
pub open spec fn init_video(m: Fmp4Model) -> Option<InitTrack> {
    match (m.video_codec, m.video_config) {
        (Some(codec), Some(config)) => Some(
            InitTrack {
                track_id: 1,
                codec,
                config,
                width: m.width,
                height: m.height,
                timescale: m.video_timescale,
                channels: m.audio_channels,
            },
        ),
        _ => None,
    }
}

/// The audio track of the initialization segment, once its configuration is
/// known.
pub open spec fn init_audio(m: Fmp4Model) -> Option<InitTrack> {
    match (m.audio_codec, m.audio_config) {
        (Some(codec), Some(config)) => Some(
            InitTrack {
                track_id: 2,
                codec,
                config,
                width: 0,
                height: 0,
                timescale: m.audio_sample_rate,
                channels: m.audio_channels,
            },
        ),
        _ => None,
    }
}

/// The box of a track that may be there.
pub open spec fn optional_trak(t: Option<InitTrack>) -> Seq<u8> {
    match t {
        Some(t) => box_bytes(TRAK, init_trak(t)),
        None => Seq::empty(),
    }
}

/// The body of the movie box.
#[verifier::opaque]
pub open spec fn init_moov(m: Fmp4Model) -> Seq<u8> {
    Seq::<u8>::empty() + mvhd_bytes(0, 2) + optional_trak(init_video(m)) + optional_trak(
        init_audio(m),
    )
}

/// The initialization segment.
#[verifier::opaque]
pub open spec fn init_bytes(m: Fmp4Model) -> Seq<u8> {
    cmaf_ftyp_bytes(m.video_codec) + box_bytes(MOOV, init_moov(m))
}

// ── media segment ───────────────────────────────────────────────────────

/// The bytes of the samples, one after the other.
pub open spec fn samples_payload(samples: Seq<FragmentSample>) -> Seq<u8>
    decreases samples.len(),
{
    if samples.len() == 0 {
        Seq::empty()
    } else {
        samples_payload(samples.drop_last()) + samples.last().data
    }
}

/// The flags of a sample: whether others depend on it, and whether it is a
/// sync sample.
pub open spec fn sample_flag_word(is_sync: bool) -> int {
    if is_sync {
        0x0200_0000
    } else {
        0x0101_0000
    }
}

/// The record of a sample: duration, size and flags.
pub open spec fn sample_record(s: FragmentSample) -> Seq<u8> {
    Seq::<u8>::empty() + be32(s.duration as int) + be32(s.data.len() as int % 0x1_0000_0000) + be32(
        sample_flag_word(s.is_sync),
    )
}

/// The records of the first `n` samples.
pub open spec fn sample_records(samples: Seq<FragmentSample>, n: int) -> Seq<u8>
    decreases n,
{
    if n <= 0 {
        Seq::empty()
    } else {
        sample_records(samples, n - 1) + sample_record(samples[n - 1])
    }
}

/// The body of the run box: data offset, and a record with duration, size and
/// flags for each sample.
#[verifier::opaque]
pub open spec fn trun_body(samples: Seq<FragmentSample>, data_offset: int) -> Seq<u8> {
    Seq::<u8>::empty() + be32(0x701) + be32(samples.len() as int % 0x1_0000_0000) + be32(
        data_offset % 0x1_0000_0000,
    ) + sample_records(samples, samples.len() as int)
}

/// The body of the track fragment header: offsets count from the fragment.
#[verifier::opaque]
pub open spec fn tfhd_body(track_id: u32) -> Seq<u8> {
    Seq::<u8>::empty() + be32(0x2_0000) + be32(track_id as int)
}

/// The body of the decode time box.
#[verifier::opaque]
pub open spec fn tfdt_body(start_time: u64) -> Seq<u8> {
    Seq::<u8>::empty() + be32(0x100_0000) + be64(start_time as int)
}

/// The body of a track fragment.
#[verifier::opaque]
pub open spec fn traf_body(
    track_id: u32,
    start_time: u64,
    samples: Seq<FragmentSample>,
    data_offset: int,
) -> Seq<u8> {
    Seq::<u8>::empty() + box_bytes(TFHD, tfhd_body(track_id)) + box_bytes(
        TFDT,
        tfdt_body(start_time),
    ) + box_bytes(TRUN, trun_body(samples, data_offset))
}

/// The size of the track fragment box of `n` samples; none for no samples.
pub open spec fn traf_size(n: int) -> int {
    if n > 0 {
        64 + 12 * n
    } else {
        0
    }
}

/// The size of the fragment box of so many video and audio samples.
pub open spec fn moof_size(video: int, audio: int) -> int {
    24 + traf_size(video) + traf_size(audio)
}

/// The body of the fragment header.
pub open spec fn mfhd_body(sequence: u64) -> Seq<u8> {
    Seq::<u8>::empty() + be32(0) + be32(sequence as int % 0x1_0000_0000)
}

/// The box of a track fragment; none for no samples.
pub open spec fn optional_traf(
    track_id: u32,
    start_time: u64,
    samples: Seq<FragmentSample>,
    data_offset: int,
) -> Seq<u8> {
    if samples.len() > 0 {
        box_bytes(TRAF, traf_body(track_id, start_time, samples, data_offset))
    } else {
        Seq::empty()
    }
}

/// The body of the fragment box. The samples begin behind it and the header of
/// the media data box; those of the audio track follow those of the video
/// track.
#[verifier::opaque]
pub open spec fn moof_body(
    sequence: u64,
    start_time: u64,
    video: Seq<FragmentSample>,
    audio: Seq<FragmentSample>,
) -> Seq<u8> {
    let data_at = moof_size(video.len() as int, audio.len() as int) + 8;
    Seq::<u8>::empty() + box_bytes(MFHD, mfhd_body(sequence)) + optional_traf(
        1,
        start_time,
        video,
        data_at,
    ) + optional_traf(2, start_time, audio, data_at + samples_payload(video).len())
}

/// The segment type box.
#[verifier::opaque]
pub open spec fn styp_bytes() -> Seq<u8> {
    box_bytes(
        STYP,
        Seq::<u8>::empty() + be32(MSDH as int) + be32(MSIX as int) + be32(ISO6 as int) + be32(
            CMFC as int,
        ),
    )
}

/// A media segment.
#[verifier::opaque]
pub open spec fn media_bytes(
    sequence: u64,
    start_time: u64,
    video: Seq<FragmentSample>,
    audio: Seq<FragmentSample>,
) -> Seq<u8> {
    styp_bytes() + box_bytes(MOOF, moof_body(sequence, start_time, video, audio)) + box_bytes(
        MDAT,
        samples_payload(video) + samples_payload(audio),
    )
}

/// The segment that the waiting samples make.
pub open spec fn flushed_segment(m: Fmp4Model) -> SegmentModel {
    SegmentModel {
        is_init: false,
        sequence: m.segment_seq,
        data: media_bytes(m.segment_seq, m.segment_start_time, m.video_samples, m.audio_samples),
        start_time: m.segment_start_time,
        duration: if m.total_duration >= m.segment_start_time {
            (m.total_duration - m.segment_start_time) as u64
        } else {
            0
        },
    }
}

/// The muxer behind a flushed segment: the next one begins where this one
/// ends.
pub open spec fn after_flush(m: Fmp4Model) -> Fmp4Model {
    Fmp4Model {
        segment_seq: (m.segment_seq + 1) as u64,
        segment_start_time: m.total_duration,
        video_samples: Seq::empty(),
        audio_samples: Seq::empty(),
        ..m
    }
}

/// Whether anything waits for a segment.
pub open spec fn samples_wait(m: Fmp4Model) -> bool {
    m.video_samples.len() > 0 || m.audio_samples.len() > 0
}

// ── writing ─────────────────────────────────────────────────────────────

fn write_cmaf_ftyp(buf: &mut Vec<u8>, video_codec: Option<CodecId>)
    ensures
        final(buf)@ == old(buf)@ + cmaf_ftyp_bytes(video_codec),
{
    let major: u32 = match video_codec {
        Some(CodecId::H265) => ISO6,
        _ => ISOM,
    };
    let mut d: Vec<u8> = Vec::new();
    put_u32(&mut d, major);
    put_u32(&mut d, 0x200);
    put_u32(&mut d, ISO6);
    put_u32(&mut d, MP41);
    put_u32(&mut d, CMFC);
    reveal(cmaf_ftyp_bytes);
    put_box(buf, FTYP, d.as_slice());
}

fn put_name(text: &[u8], padding: usize) -> (r: Vec<u8>)
    ensures
        r@ == text@ + zeros(padding as int),
{
    let mut name = to_vec(text);
    put_zeros(&mut name, padding);
    name
}

fn build_avc1_entry(config: &[u8], width: u32, height: u32) -> (r: Vec<u8>)
    ensures
        r@ == visual_fields(width, height, avc_name()) + box_bytes(AVCC, config@),
{
    let text: [u8; 10] = [0x41, 0x56, 0x43, 0x20, 0x43, 0x6f, 0x64, 0x69, 0x6e, 0x67];
    let name = put_name(&text, 22);
    assert(name@ =~= avc_name());
    let mut entry = put_visual_fields(width, height, name.as_slice());
    put_box(&mut entry, AVCC, config);
    entry
}

fn build_hvc1_entry(config: &[u8], width: u32, height: u32) -> (r: Vec<u8>)
    ensures
        r@ == visual_fields(width, height, hevc_name()) + box_bytes(HVCC, config@),
{
    let text: [u8; 11] = [0x48, 0x45, 0x56, 0x43, 0x20, 0x43, 0x6f, 0x64, 0x69, 0x6e, 0x67];
    let name = put_name(&text, 21);
    assert(name@ =~= hevc_name());
    let mut entry = put_visual_fields(width, height, name.as_slice());
    put_box(&mut entry, HVCC, config);
    entry
}

fn build_mp4a_entry(asc: &[u8], sample_rate: u32, channels: u32) -> (r: Vec<u8>)
    ensures
        r@ == audio_fields(channels, sample_rate) + box_bytes(ESDS, cmaf_esds(asc@)),
{
    let mut esds: Vec<u8> = Vec::new();
    put_u32(&mut esds, 0);
    let head: [u8; 12] = [0x03, 0x19, 0, 1, 0, 0x04, 0x11, 0x40, 0x15, 0, 0, 0];
    assert(head@ =~= seq![0x03u8, 0x19, 0, 1, 0, 0x04, 0x11, 0x40, 0x15, 0, 0, 0]);
    put_bytes(&mut esds, &head);
    put_u32(&mut esds, 0x1_f400);
    put_u32(&mut esds, 0x1_f400);
    let info: [u8; 2] = [0x05, (asc.len() % 0x100) as u8];
    assert(info@ =~= seq![0x05u8, (asc@.len() % 0x100) as u8]);
    put_bytes(&mut esds, &info);
    put_bytes(&mut esds, asc);
    let sync: [u8; 3] = [0x06, 0x01, 0x02];
    assert(sync@ =~= seq![0x06u8, 0x01, 0x02]);
    put_bytes(&mut esds, &sync);
    let mut entry = put_audio_fields(channels, sample_rate);
    put_box(&mut entry, ESDS, esds.as_slice());
    entry
}

fn build_vp_entry(config: &[u8], width: u32, height: u32) -> (r: Vec<u8>)
    ensures
        r@ == vp_fields(width, height) + box_bytes(VPCC, config@),
{
    let mut entry: Vec<u8> = Vec::new();
    put_zeros(&mut entry, 6);
    put_u16(&mut entry, 1);
    put_u16(&mut entry, 0);
    put_u16(&mut entry, 0);
    let vendor: [u8; 8] = [0x67, 0x6f, 0x6f, 0x67, 0x6c, 0x65, 0, 0];
    assert(vendor@ =~= vp_vendor());
    put_bytes(&mut entry, &vendor);
    put_u16(&mut entry, (width % 0x1_0000) as u16);
    put_u16(&mut entry, (height % 0x1_0000) as u16);
    put_u32(&mut entry, 0x48_0000);
    put_u32(&mut entry, 0x48_0000);
    put_u32(&mut entry, 0);
    put_u16(&mut entry, 1);
    let text: [u8; 9] = [0x56, 0x50, 0x20, 0x43, 0x6f, 0x64, 0x69, 0x6e, 0x67];
    let name = put_name(&text, 23);
    assert(name@ =~= vp_name());
    put_bytes(&mut entry, name.as_slice());
    put_u16(&mut entry, 24);
    put_u16(&mut entry, 0xffff);
    put_box(&mut entry, VPCC, config);
    entry
}

/// Appends the sample entry of a codec.
fn write_cmaf_entry(
    buf: &mut Vec<u8>,
    codec: CodecId,
    config: &[u8],
    width: u32,
    height: u32,
    timescale: u32,
    channels: u32,
)
    ensures
        final(buf)@ == old(buf)@ + cmaf_entry(codec, config@, width, height, timescale, channels),
{
    match codec {
        CodecId::H264 => {
            let entry = build_avc1_entry(config, width, height);
            put_box(buf, AVC1, entry.as_slice());
        },
        CodecId::H265 => {
            let entry = build_hvc1_entry(config, width, height);
            put_box(buf, HVC1, entry.as_slice());
        },
        CodecId::AAC => {
            let entry = build_mp4a_entry(config, timescale, channels);
            put_box(buf, MP4A, entry.as_slice());
        },
        CodecId::VP8 => {
            let entry = build_vp_entry(config, width, height);
            put_box(buf, VP08, entry.as_slice());
        },
        CodecId::VP9 => {
            let entry = build_vp_entry(config, width, height);
            put_box(buf, VP09, entry.as_slice());
        },
        CodecId::AV1 => {
            let entry = build_vp_entry(config, width, height);
            put_box(buf, AV01, entry.as_slice());
        },
        _ => {
            assert(buf@ + Seq::<u8>::empty() =~= buf@);
        },
    }
}

fn write_init_dinf(buf: &mut Vec<u8>)
    ensures
        final(buf)@ == old(buf)@ + init_dinf(),
{
    let mut zero: Vec<u8> = Vec::new();
    put_u32(&mut zero, 0);
    assert(zero@ =~= be32(0));
    let mut dref: Vec<u8> = Vec::new();
    put_u32(&mut dref, 0);
    put_u32(&mut dref, 1);
    put_box(&mut dref, URL_, zero.as_slice());
    let mut dinf: Vec<u8> = Vec::new();
    put_box(&mut dinf, DREF, dref.as_slice());
    assert(dinf@ =~= box_bytes(
        DREF,
        Seq::<u8>::empty() + be32(0) + be32(1) + box_bytes(URL_, be32(0)),
    ));
    put_box(buf, DINF, dinf.as_slice());
}

/// Appends a track box of the initialization segment.
#[verifier::spinoff_prover]
fn write_init_trak(
    buf: &mut Vec<u8>,
    track_id: u32,
    codec: CodecId,
    config: &[u8],
    width: u32,
    height: u32,
    timescale: u32,
    channels: u32,
)
    ensures
        final(buf)@ == old(buf)@ + box_bytes(
            TRAK,
            init_trak(
                InitTrack {
                    track_id,
                    codec,
                    config: config@,
                    width,
                    height,
                    timescale,
                    channels,
                },
            ),
        ),
{
    let ghost t = InitTrack {
        track_id,
        codec,
        config: config@,
        width,
        height,
        timescale,
        channels,
    };
    let is_video: bool = match codec {
        CodecId::H264 | CodecId::H265 => true,
        _ => false,
    };
    let mut zero: Vec<u8> = Vec::new();
    put_u32(&mut zero, 0);
    assert(zero@ =~= be32(0));
    let mut stsd: Vec<u8> = Vec::new();
    put_u32(&mut stsd, 0);
    put_u32(&mut stsd, 1);
    write_cmaf_entry(&mut stsd, codec, config, width, height, timescale, channels);
    assert(stsd@ == init_stsd(t));
    let mut stbl: Vec<u8> = Vec::new();
    put_box(&mut stbl, STSD, stsd.as_slice());
    put_box(&mut stbl, STTS, zero.as_slice());
    put_box(&mut stbl, STSC, zero.as_slice());
    let mut eight: Vec<u8> = Vec::new();
    put_zeros(&mut eight, 8);
    assert(eight@ =~= zeros(8));
    put_box(&mut stbl, STSZ, eight.as_slice());
    put_box(&mut stbl, STCO, zero.as_slice());
    assert(stbl@ == init_stbl(t)) by {
        reveal(init_stbl);
    }
    let mut minf: Vec<u8> = Vec::new();
    if is_video {
        write_vmhd(&mut minf);
    } else {
        write_smhd(&mut minf);
    }
    write_init_dinf(&mut minf);
    put_box(&mut minf, STBL, stbl.as_slice());
    assert(minf@ == init_minf(t)) by {
        reveal(init_minf);
    }
    let mut mdia: Vec<u8> = Vec::new();
    write_mdhd(&mut mdia, timescale, 0);
    write_hdlr(
        &mut mdia,
        if is_video {
            VIDE
        } else {
            SOUN
        },
    );
    put_box(&mut mdia, MINF, minf.as_slice());
    assert(mdia@ == init_mdia(t)) by {
        reveal(init_mdia);
    }
    let mut trak: Vec<u8> = Vec::new();
    let tkhd = put_tkhd_fields(track_id, 0, 0x0100, width, height);
    write_full_box(&mut trak, TKHD, 0, 7, tkhd.as_slice());
    put_box(&mut trak, MDIA, mdia.as_slice());
    assert(trak@ == init_trak(t)) by {
        reveal(init_trak);
    }
    put_box(buf, TRAK, trak.as_slice());
}

/// Appends the bytes of the samples.
fn put_samples(buf: &mut Vec<u8>, samples: &Vec<Fmp4Sample>)
    ensures
        final(buf)@ == old(buf)@ + samples_payload(views(samples@)),
{
    let ghost before = buf@;
    let ghost models = views(samples@);
    let mut i: usize = 0;
    proof {
        assert(models.take(0) =~= Seq::empty());
        assert(before + Seq::<u8>::empty() =~= before);
    }
    while i < samples.len()
        invariant
            i <= samples@.len(),
            models == views(samples@),
            buf@ == before + samples_payload(models.take(i as int)),
        decreases samples@.len() - i,
    {
        put_bytes(buf, samples[i].data.as_slice());
        proof {
            let part = models.take(i + 1);
            assert(part.drop_last() =~= models.take(i as int));
            assert(part.last() == samples@[i as int]@);
            assert(buf@ =~= before + samples_payload(part));
        }
        i = i + 1;
    }
    assert(models.take(i as int) =~= models);
}

/// Appends the box of a track fragment; nothing for no samples.
fn write_traf(
    buf: &mut Vec<u8>,
    track_id: u32,
    start_time: u64,
    samples: &Vec<Fmp4Sample>,
    data_offset: u64,
)
    ensures
        final(buf)@ == old(buf)@ + optional_traf(
            track_id,
            start_time,
            views(samples@),
            data_offset as int,
        ),
{
    let ghost models = views(samples@);
    if samples.len() == 0 {
        assert(buf@ + Seq::<u8>::empty() =~= buf@);
        return ;
    }
    let mut tfhd: Vec<u8> = Vec::new();
    put_u32(&mut tfhd, 0x2_0000);
    put_u32(&mut tfhd, track_id);
    let mut tfdt: Vec<u8> = Vec::new();
    put_u32(&mut tfdt, 0x100_0000);
    put_u64(&mut tfdt, start_time);
    let mut trun: Vec<u8> = Vec::new();
    put_u32(&mut trun, 0x701);
    put_u32(&mut trun, (samples.len() as u64 % 0x1_0000_0000) as u32);
    put_u32(&mut trun, (data_offset % 0x1_0000_0000) as u32);
    let ghost head = trun@;
    let mut i: usize = 0;
    assert(head + Seq::<u8>::empty() =~= head);
    while i < samples.len()
        invariant
            i <= samples@.len(),
            models == views(samples@),
            trun@ == head + sample_records(models, i as int),
        decreases samples@.len() - i,
    {
        assert(models[i as int] == samples@[i as int]@);
        let s = &samples[i];
        let ghost before = trun@;
        put_u32(&mut trun, s.duration);
        put_u32(&mut trun, (s.data.len() as u64 % 0x1_0000_0000) as u32);
        put_u32(
            &mut trun,
            if s.is_sync {
                0x0200_0000
            } else {
                0x0101_0000
            },
        );
        assert(trun@ =~= before + sample_record(models[i as int]));
        assert(before + sample_record(models[i as int]) =~= head + sample_records(models, i + 1));
        i = i + 1;
    }
    reveal(tfhd_body);
    reveal(tfdt_body);
    reveal(trun_body);
    let mut traf: Vec<u8> = Vec::new();
    put_box(&mut traf, TFHD, tfhd.as_slice());
    put_box(&mut traf, TFDT, tfdt.as_slice());
    put_box(&mut traf, TRUN, trun.as_slice());
    assert(traf@ == traf_body(track_id, start_time, models, data_offset as int)) by {
        reveal(traf_body);
    }
    put_box(buf, TRAF, traf.as_slice());
}

/// The size of the track fragment box of `n` samples.
fn traf_len(n: usize) -> (r: u64)
    requires
        n <= u64::MAX / 64,
    ensures
        r == traf_size(n as int),
{
    if n > 0 {
        64 + 12 * n as u64
    } else {
        0
    }
}

/// Whether the waiting samples can be written as a segment.
pub open spec fn flushable(m: Fmp4Model) -> bool {
    &&& m.segment_seq < u64::MAX
    &&& m.video_samples.len() <= u64::MAX / 64
    &&& m.audio_samples.len() <= u64::MAX / 64
    &&& samples_payload(m.video_samples).len() <= u64::MAX / 2
}

/// How many bytes samples have together; `None` when too many.
fn count_bytes(samples: &Vec<Fmp4Sample>) -> (r: Option<u64>)
    ensures
        match r {
            Some(n) => n == samples_payload(views(samples@)).len() && n <= u64::MAX / 2,
            None => samples_payload(views(samples@)).len() > u64::MAX / 2,
        },
{
    let ghost models = views(samples@);
    let mut total: u64 = 0;
    let mut i: usize = 0;
    assert(models.take(0) =~= Seq::empty());
    while i < samples.len()
        invariant
            i <= samples@.len(),
            models == views(samples@),
            total <= u64::MAX / 2,
            total == samples_payload(models.take(i as int)).len(),
        decreases samples@.len() - i,
    {
        proof {
            let next = models.take(i + 1);
            assert(next.drop_last() =~= models.take(i as int));
            assert(next.last() == samples@[i as int]@);
            lemma_payload_grows(models, i + 1);
        }
        if samples[i].data.len() as u64 > u64::MAX / 2 - total {
            return None;
        }
        total = total + samples[i].data.len() as u64;
        i = i + 1;
    }
    assert(models.take(i as int) =~= models);
    Some(total)
}

proof fn lemma_payload_grows(samples: Seq<FragmentSample>, n: int)
    requires
        0 <= n <= samples.len(),
    ensures
        samples_payload(samples.take(n)).len() <= samples_payload(samples).len(),
    decreases samples.len(),
{
    if n == samples.len() {
        assert(samples.take(n) =~= samples);
    } else {
        lemma_payload_grows(samples.drop_last(), n);
        assert(samples.drop_last().take(n) =~= samples.take(n));
    }
}

impl Fmp4Muxer {
    /// A muxer that has seen no frame.
    pub fn new(video_timescale: u32) -> (r: Self)
        ensures
            r@ == empty_fmp4(video_timescale),
    {
        let r = Self {
            video_timescale,
            video_codec: None,
            audio_codec: None,
            video_config: None,
            audio_config: None,
            width: 640,
            height: 480,
            audio_sample_rate: 44100,
            audio_channels: 2,
            video_samples: Vec::new(),
            audio_samples: Vec::new(),
            base_timestamp: None,
            segment_seq: 0,
            segment_start_time: 0,
            total_duration: 0,
            largest_video_sample: 0,
            largest_audio_sample: 0,
        };
        assert(views(r.video_samples@) =~= Seq::empty());
        assert(views(r.audio_samples@) =~= Seq::empty());
        r
    }

    /// Takes a frame. `payload` is what the codec layer made of it: the
    /// length-prefixed NAL units of an H.264 or H.265 frame, the raw access unit
    /// of an AAC frame, the record of parameter sets with start codes; `None`
    /// when it could not.
    pub fn push_frame(&mut self, frame: &MediaFrame, payload: Option<Vec<u8>>)
        ensures
            final(self)@ == fmp4_pushed(old(self)@, frame@, opt_bytes(payload)),
    {
        let base: u32 = match self.base_timestamp {
            Some(t) => t,
            None => frame.timestamp,
        };
        self.base_timestamp = Some(base);
        if frame.config_frame {
            let kept: Option<Vec<u8>> = match fragment_config(frame) {
                Some(config) => Some(config),
                None => payload,
            };
            if let Some(config) = kept {
                match frame.frame_type {
                    FrameType::Video => {
                        self.video_codec = Some(frame.codec);
                        self.video_config = Some(config);
                    },
                    FrameType::Audio => {
                        self.audio_codec = Some(frame.codec);
                        self.audio_config = Some(config);
                    },
                    FrameType::Metadata => {},
                }
            }
            return ;
        }
        let rel: u32 = if frame.timestamp >= base {
            frame.timestamp - base
        } else {
            0
        };
        let duration: u32 = self.video_timescale / 25;
        let scale: u32 = self.video_timescale;
        assert(0 <= rel * scale <= 0xffff_ffff * 0xffff_ffff) by (nonlinear_arith)
            requires
                0 <= rel <= 0xffff_ffff,
                0 <= scale <= 0xffff_ffff,
        ;
        let end: u64 = rel as u64 * scale as u64 / 1000 + duration as u64;
        let is_video: bool = match frame.frame_type {
            FrameType::Video => true,
            FrameType::Audio => false,
            FrameType::Metadata => {
                if end > self.total_duration {
                    self.total_duration = end;
                }
                return ;
            },
        };
        let stored: Option<Vec<u8>> = match frame.codec {
            CodecId::H264 | CodecId::H265 | CodecId::AAC => payload,
            _ => Some(to_vec(frame.data.as_slice())),
        };
        if let Some(data) = stored {
            let size: usize = data.len();
            let sample = Fmp4Sample { data, timestamp: rel, duration, is_sync: frame.key_frame };
            if is_video {
                let ghost before = views(self.video_samples@);
                if size > self.largest_video_sample {
                    self.largest_video_sample = size;
                }
                self.video_samples.push(sample);
                assert(views(self.video_samples@) =~= before.push(sample@));
            } else {
                let ghost before = views(self.audio_samples@);
                if size > self.largest_audio_sample {
                    self.largest_audio_sample = size;
                }
                self.audio_samples.push(sample);
                assert(views(self.audio_samples@) =~= before.push(sample@));
            }
            if end > self.total_duration {
                self.total_duration = end;
            }
        }
    }

    /// The initialization segment.
    pub fn init_segment(&self) -> (r: Fmp4Segment)
        ensures
            r@ == (SegmentModel {
                is_init: true,
                sequence: 0,
                data: init_bytes(self@),
                start_time: 0,
                duration: 0,
            }),
    {
        let mut moov: Vec<u8> = Vec::new();
        write_mvhd(&mut moov, 0, 2);
        if let (Some(codec), Some(config)) = (&self.video_codec, &self.video_config) {
            write_init_trak(
                &mut moov,
                1,
                *codec,
                config.as_slice(),
                self.width,
                self.height,
                self.video_timescale,
                self.audio_channels,
            );
        } else {
            assert(moov@ + Seq::<u8>::empty() =~= moov@);
        }
        if let (Some(codec), Some(config)) = (&self.audio_codec, &self.audio_config) {
            write_init_trak(
                &mut moov,
                2,
                *codec,
                config.as_slice(),
                0,
                0,
                self.audio_sample_rate,
                self.audio_channels,
            );
        } else {
            assert(moov@ + Seq::<u8>::empty() =~= moov@);
        }
        assert(moov@ == init_moov(self@)) by {
            reveal(init_moov);
        }
        let mut data: Vec<u8> = Vec::new();
        write_cmaf_ftyp(&mut data, self.video_codec);
        assert(data@ =~= cmaf_ftyp_bytes(self.video_codec));
        put_box(&mut data, MOOV, moov.as_slice());
        reveal(init_bytes);
        Fmp4Segment { is_init: true, sequence: 0, data, start_time: 0, duration: 0 }
    }

    /// Whether the waiting samples can be written as a segment.
    pub fn can_flush(&self) -> (r: bool)
        ensures
            r == flushable(self@),
    {
        self.segment_seq < u64::MAX && self.video_samples.len() as u64 <= u64::MAX / 64
            && self.audio_samples.len() as u64 <= u64::MAX / 64 && count_bytes(
            &self.video_samples,
        ).is_some()
    }

    /// Makes a media segment of the waiting samples; `None` when none waits.
    pub fn flush_segment(&mut self) -> (r: Option<Fmp4Segment>)
        requires
            flushable(old(self)@),
        ensures
            !samples_wait(old(self)@) ==> r is None && final(self)@ == old(self)@,
            samples_wait(old(self)@) ==> final(self)@ == after_flush(old(self)@) && r is Some
                && r->0@ == flushed_segment(old(self)@),
    {
        if self.video_samples.len() == 0 && self.audio_samples.len() == 0 {
            return None;
        }
        let sequence: u64 = self.segment_seq;
        let start_time: u64 = self.segment_start_time;
        let duration: u64 = if self.total_duration >= start_time {
            self.total_duration - start_time
        } else {
            0
        };
        let mut mdat: Vec<u8> = Vec::new();
        put_samples(&mut mdat, &self.video_samples);
        let video_len: usize = mdat.len();
        assert(mdat@ =~= samples_payload(self@.video_samples));
        put_samples(&mut mdat, &self.audio_samples);
        let data_at: u64 = 24 + traf_len(self.video_samples.len()) + traf_len(
            self.audio_samples.len(),
        ) + 8;
        let mut mfhd: Vec<u8> = Vec::new();
        put_u32(&mut mfhd, 0);
        put_u32(&mut mfhd, (sequence % 0x1_0000_0000) as u32);
        let mut moof: Vec<u8> = Vec::new();
        put_box(&mut moof, MFHD, mfhd.as_slice());
        write_traf(&mut moof, 1, start_time, &self.video_samples, data_at);
        write_traf(&mut moof, 2, start_time, &self.audio_samples, data_at + video_len as u64);
        assert(moof@ == moof_body(
            sequence,
            start_time,
            self@.video_samples,
            self@.audio_samples,
        )) by {
            reveal(moof_body);
        }
        let mut styp: Vec<u8> = Vec::new();
        put_u32(&mut styp, MSDH);
        put_u32(&mut styp, MSIX);
        put_u32(&mut styp, ISO6);
        put_u32(&mut styp, CMFC);
        let mut data: Vec<u8> = Vec::new();
        put_box(&mut data, STYP, styp.as_slice());
        assert(data@ =~= styp_bytes()) by {
            reveal(styp_bytes);
        }
        put_box(&mut data, MOOF, moof.as_slice());
        put_box(&mut data, MDAT, mdat.as_slice());
        assert(data@ == media_bytes(
            sequence,
            start_time,
            self@.video_samples,
            self@.audio_samples,
        )) by {
            reveal(media_bytes);
        }
        self.segment_seq = sequence + 1;
        self.segment_start_time = self.total_duration;
        self.video_samples = Vec::new();
        self.audio_samples = Vec::new();
        assert(views(self.video_samples@) =~= Seq::empty());
        assert(views(self.audio_samples@) =~= Seq::empty());
        Some(Fmp4Segment { is_init: false, sequence, data, start_time, duration })
    }

    /// Whether anything waits for a segment.
    pub fn has_samples(&self) -> (r: bool)
        ensures
            r == samples_wait(self@),
    {
        self.video_samples.len() > 0 || self.audio_samples.len() > 0
    }

    pub fn video_codec(&self) -> (r: Option<CodecId>)
        ensures
            r == self@.video_codec,
    {
        self.video_codec
    }

    pub fn audio_codec(&self) -> (r: Option<CodecId>)
        ensures
            r == self@.audio_codec,
    {
        self.audio_codec
    }
}

} // verus!
