//! Frames and tracks, as the rest of the server hands them around.
use vstd::prelude::*;

verus! {

/// Codec of a track or frame.
#[derive(Debug, Clone, Copy, PartialEq, Eq, Structural)]
pub enum CodecId {
    H264,
    H265,
    AV1,
    VP8,
    VP9,
    AAC,
    Opus,
    Mp3,
    G711A,
    G711U,
    L16,
}

impl CodecId {
    /// Whether the codec carries pictures.
    pub open spec fn spec_is_video(self) -> bool {
        self == CodecId::H264 || self == CodecId::H265 || self == CodecId::AV1 || self
            == CodecId::VP8 || self == CodecId::VP9
    }

    /// Whether the codec carries pictures.
    #[verifier::when_used_as_spec(spec_is_video)]
    pub fn is_video(self) -> (r: bool)
        ensures
            r == self.spec_is_video(),
    {
        match self {
            CodecId::H264 | CodecId::H265 | CodecId::AV1 | CodecId::VP8 | CodecId::VP9 => true,
            _ => false,
        }
    }
}

/// What a frame carries.
#[derive(Debug, Clone, Copy, PartialEq, Eq, Structural)]
pub enum FrameType {
    Video,
    Audio,
    Metadata,
}

/// How the payload of a frame is laid out.
#[derive(Debug, Clone, Copy, PartialEq, Eq, Structural)]
pub enum PayloadFormat {
    Unspecified,
    Flv,
    AnnexB,
    Avcc,
    Hvcc,
    AacAudioSpecificConfig,
    AacRaw,
}

/// One encoded frame.
#[derive(Debug, Clone)]
pub struct MediaFrame {
    pub track_id: u32,
    pub frame_type: FrameType,
    pub codec: CodecId,
    /// Bus timestamp in milliseconds.
    pub timestamp: u32,
    pub pts: u64,
    pub dts: u64,
    pub data: Vec<u8>,
    pub key_frame: bool,
    /// Whether the payload is a decoder configuration.
    pub config_frame: bool,
    pub payload_format: PayloadFormat,
}

/// The model of a frame.
#[verifier::ext_equal]
pub struct FrameModel {
    pub track_id: u32,
    pub frame_type: FrameType,
    pub codec: CodecId,
    pub timestamp: u32,
    pub pts: u64,
    pub dts: u64,
    pub data: Seq<u8>,
    pub key_frame: bool,
    pub config_frame: bool,
    pub payload_format: PayloadFormat,
}

impl View for MediaFrame {
    type V = FrameModel;

    open spec fn view(&self) -> FrameModel {
        FrameModel {
            track_id: self.track_id,
            frame_type: self.frame_type,
            codec: self.codec,
            timestamp: self.timestamp,
            pts: self.pts,
            dts: self.dts,
            data: self.data@,
            key_frame: self.key_frame,
            config_frame: self.config_frame,
            payload_format: self.payload_format,
        }
    }
}

/// A video frame that is no decoder configuration.
pub open spec fn video_frame(
    track_id: u32,
    codec: CodecId,
    timestamp: u32,
    pts: u64,
    dts: u64,
    data: Seq<u8>,
    key_frame: bool,
) -> FrameModel {
    FrameModel {
        track_id,
        frame_type: FrameType::Video,
        codec,
        timestamp,
        pts,
        dts,
        data,
        key_frame,
        config_frame: false,
        payload_format: PayloadFormat::Unspecified,
    }
}

/// An audio frame that is no decoder configuration.
pub open spec fn audio_frame(
    track_id: u32,
    codec: CodecId,
    timestamp: u32,
    pts: u64,
    dts: u64,
    data: Seq<u8>,
) -> FrameModel {
    FrameModel {
        track_id,
        frame_type: FrameType::Audio,
        codec,
        timestamp,
        pts,
        dts,
        data,
        key_frame: false,
        config_frame: false,
        payload_format: PayloadFormat::Unspecified,
    }
}

impl MediaFrame {
    pub fn new_video(
        track_id: u32,
        codec: CodecId,
        timestamp: u32,
        pts: u64,
        dts: u64,
        data: Vec<u8>,
        key_frame: bool,
    ) -> (r: Self)
        ensures
            r@ == video_frame(track_id, codec, timestamp, pts, dts, data@, key_frame),
    {
        MediaFrame {
            track_id,
            frame_type: FrameType::Video,
            codec,
            timestamp,
            pts,
            dts,
            data,
            key_frame,
            config_frame: false,
            payload_format: PayloadFormat::Unspecified,
        }
    }

    pub fn new_audio(
        track_id: u32,
        codec: CodecId,
        timestamp: u32,
        pts: u64,
        dts: u64,
        data: Vec<u8>,
    ) -> (r: Self)
        ensures
            r@ == audio_frame(track_id, codec, timestamp, pts, dts, data@),
    {
        MediaFrame {
            track_id,
            frame_type: FrameType::Audio,
            codec,
            timestamp,
            pts,
            dts,
            data,
            key_frame: false,
            config_frame: false,
            payload_format: PayloadFormat::Unspecified,
        }
    }

    pub fn with_payload_format(self, payload_format: PayloadFormat) -> (r: Self)
        ensures
            r@ == (FrameModel { payload_format, ..self@ }),
    {
        let mut frame = self;
        frame.payload_format = payload_format;
        frame
    }

    /// A copy of the frame.
    pub fn duplicate(&self) -> (r: Self)
        ensures
            r@ == self@,
    {
        MediaFrame {
            track_id: self.track_id,
            frame_type: self.frame_type,
            codec: self.codec,
            timestamp: self.timestamp,
            pts: self.pts,
            dts: self.dts,
            data: crate::bytes::to_vec(self.data.as_slice()),
            key_frame: self.key_frame,
            config_frame: self.config_frame,
            payload_format: self.payload_format,
        }
    }
}

/// Parameters of a video track. The frame rate is a whole number of frames
/// per second, 0 when unknown.
#[derive(Debug, Clone, Copy, PartialEq, Eq, Structural)]
pub struct VideoInfo {
    pub codec: CodecId,
    pub width: u32,
    pub height: u32,
    pub fps: u32,
    pub key_frame: bool,
}

/// Parameters of an audio track.
#[derive(Debug, Clone, Copy, PartialEq, Eq, Structural)]
pub struct AudioInfo {
    pub codec: CodecId,
    pub sample_rate: u32,
    pub channels: u32,
    pub bits_per_sample: u32,
}

/// Parameters of a track.
#[derive(Debug, Clone, Copy, PartialEq, Eq, Structural)]
pub enum TrackInfo {
    Video(VideoInfo),
    Audio(AudioInfo),
}

} // verus!
