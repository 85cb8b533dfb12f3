use zlmediakit::media::{CodecId, MediaFrame, PayloadFormat};
use zlmediakit::mp4::dash::{
    build_mpd, codec_string, codec_to_sound_format, codec_to_video_codec_id,
    DashRepresentation,
};
use zlmediakit::mp4::demuxer::DemuxedTrack;
use zlmediakit::mp4::entries::TrackKind;
use zlmediakit::mp4::vod::{hex, percent_decode, Mp4VodLibrary, VodAsset, VOD_APP};

fn video(timestamp: u32, key: bool) -> MediaFrame {
    MediaFrame::new_video(
        1,
        CodecId::H264,
        timestamp,
        u64::from(timestamp),
        u64::from(timestamp),
        vec![0x17, 1, 0, 0, 0],
        key,
    )
    .with_payload_format(PayloadFormat::Flv)
}

fn asset() -> VodAsset {
    let mut config = video(0, true);
    config.config_frame = true;
    VodAsset {
        tracks: vec![DemuxedTrack {
            track_id: 1,
            handler: TrackKind::Video,
            codec: CodecId::H264,
            timescale: 1000,
            duration: 4000,
            config: Vec::new(),
            sample_count: 4,
            width: 1920,
            height: 1080,
            fps: 25,
            sample_rate: 0,
        }],
        frames: vec![
            config,
            video(0, true),
            video(1000, false),
            video(2000, true),
            video(3000, false),
        ],
        duration_ms: 4000,
    }
}

#[test]
fn seek_uses_preceding_keyframe_and_rebases_timestamps() {
    let playback = asset().playback(2500);
    assert_eq!(playback.start_ms, 2000);
    assert_eq!(playback.duration_ms, 2000);
    assert!(playback.frames[0].config_frame);
    assert_eq!(playback.frames[1].timestamp, 0);
    assert!(playback.frames[1].key_frame);
    assert_eq!(playback.frames[2].timestamp, 1000);
}

#[test]
fn playback_from_the_start_is_the_whole_asset() {
    let a = asset();
    let playback = a.playback(0);
    assert_eq!(playback.start_ms, 0);
    assert_eq!(playback.frames.len(), 5);
    assert_eq!(a.duration_ms(), 4000);
    assert_eq!(a.tracks().len(), 1);
    assert_eq!(a.media_info().duration_ms, Some(4000));
    assert_eq!(a.media_info().metadata.as_deref(), Some("mp4-vod"));
}

#[test]
fn resolver_rejects_path_traversal_and_decoded_separators() {
    let library = Mp4VodLibrary::new("record");
    assert_eq!(
        library.resolve(VOD_APP, "live/camera/file.mp4").as_deref(),
        Some("record/live/camera/file.mp4")
    );
    assert!(library.resolve(VOD_APP, "../secret.mp4").is_none());
    assert!(library.resolve(VOD_APP, "%2e%2e/secret.mp4").is_none());
    assert!(library.resolve(VOD_APP, "live%5csecret.mp4").is_none());
    assert!(library.resolve("live", "camera.mp4").is_none());
}

#[test]
fn resolver_takes_mp4_files_only() {
    let library = Mp4VodLibrary::new("record");
    assert_eq!(library.root(), "record");
    assert!(library.resolve(VOD_APP, "live/file.flv").is_none());
    assert_eq!(
        library.resolve(VOD_APP, "a%20b.mp4").as_deref(),
        Some("record/a b.mp4")
    );
}

#[test]
fn percent_signs_are_decoded() {
    assert_eq!(hex(b'f'), Some(15));
    assert_eq!(hex(b'g'), None);
    assert_eq!(percent_decode("%41b").as_deref(), Some("Ab"));
    assert_eq!(percent_decode("%4"), None);
    assert_eq!(percent_decode("%ff"), None);
    assert_eq!(percent_decode("%C3%A9").as_deref(), Some("\u{e9}"));
}

#[test]
fn build_simple_mpd() {
    let reprs = vec![DashRepresentation {
        id: "v0".into(),
        mime_type: "video/mp4".into(),
        codecs: "avc1.64001f".into(),
        width: 640,
        height: 480,
        segment_duration_secs: 4,
        timescale: 90000,
        bandwidth: 2000000,
    }];

    let mpd = build_mpd(
        &reprs,
        "$RepresentationID$/init.mp4",
        "$RepresentationID$/seg-$Number$.m4s",
        1,
    );
    assert!(mpd.contains("<MPD"));
    assert!(mpd.contains("type=\"dynamic\""));
    assert!(mpd.contains("Representation"));
    assert!(mpd.contains("avc1.64001f"));
}

#[test]
fn codec_string_h264() {
    let cfg = vec![0x01, 0x64, 0x00, 0x0a];
    assert_eq!(codec_string(CodecId::H264, &cfg), "avc1.64000A");
}

#[test]
fn codec_string_h265() {
    let record = |first: u8, compat: [u8; 4], constraints: [u8; 6], level: u8| {
        let mut r = vec![1, first];
        r.extend_from_slice(&compat);
        r.extend_from_slice(&constraints);
        r.extend_from_slice(&[level, 0, 0, 0]);
        r
    };
    let main = record(1, [0x60, 0, 0, 0], [0xb0, 0, 0, 0, 0, 0], 93);
    assert_eq!(codec_string(CodecId::H265, &main), "hev1.1.6.L93.B0");
    let mut tagged = vec![0x1c, 0, 0, 0, 0];
    tagged.extend_from_slice(&main);
    assert_eq!(codec_string(CodecId::H265, &tagged), "hev1.1.6.L93.B0");
    let high = record(0x64, [0x82, 0, 0, 1], [0xb0, 0x23, 0, 5, 0, 0], 255);
    assert_eq!(codec_string(CodecId::H265, &high), "hev1.A4.80000041.H255.B0.23.0.5");
    let plain = record(0xc2, [0x20, 0, 0, 0], [0; 6], 120);
    assert_eq!(codec_string(CodecId::H265, &plain), "hev1.C2.4.L120");
    assert_eq!(codec_string(CodecId::H265, &main[..15]), "hev1.1.6.L93.B0");
    assert_eq!(codec_string(CodecId::H265, &[]), "hev1.1.6.L93.B0");
}

#[test]
fn codec_string_aac() {
    assert_eq!(codec_string(CodecId::AAC, &[0x12, 0x10]), "mp4a.40.2");
    assert_eq!(codec_string(CodecId::AAC, &[0xaf, 0, 0x2b, 0x92]), "mp4a.40.5");
    assert_eq!(codec_string(CodecId::AAC, &[0xf9, 0x40]), "mp4a.40.42");
    assert_eq!(codec_string(CodecId::AAC, &[0x12]), "mp4a.40.2");
}

#[test]
fn codec_numbers() {
    assert_eq!(codec_to_sound_format(CodecId::AAC), 10);
    assert_eq!(codec_to_video_codec_id(CodecId::H264), 7);
}
