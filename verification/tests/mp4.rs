use zlmediakit::media::{CodecId, FrameType, MediaFrame, PayloadFormat};
use zlmediakit::mp4::boxes::{read_box_header, BoxCursor, Mp4Error, MOOV};
use zlmediakit::mp4::demuxer::{derive_track_params, Mp4Demuxer};
use zlmediakit::mp4::entries::{parse_esds_asc, TrackKind};
use zlmediakit::mp4::muxer::Mp4Muxer;
use zlmediakit::mp4::recorder::{recording_directory, Mp4Recorder};
use zlmediakit::mp4::records::{config_to_sample_rate, split_nalus_avcc};
use zlmediakit::mp4::tables::{parse_stco, parse_stsc, parse_stss, parse_stsz, parse_stts};
use zlmediakit::mp4::writer::{make_box, write_ftyp, write_stsd};

fn flv_body(frame: &MediaFrame, skip: usize) -> Option<Vec<u8>> {
    Some(frame.data[skip..].to_vec())
}

fn push_video(muxer: &mut Mp4Muxer, frame: &MediaFrame) {
    let payload = flv_body(frame, 5);
    muxer.push_frame(frame, frame.data[1] == 0, payload);
}

fn push_audio(muxer: &mut Mp4Muxer, frame: &MediaFrame) {
    let payload = flv_body(frame, 2);
    muxer.push_frame(frame, frame.data[0] == 0xaf && frame.data[1] == 0, payload);
}

fn h264_config() -> MediaFrame {
    let data = vec![
        0x17, 0x00, 0x00, 0x00, 0x00, 0x01, 0x42, 0x00, 0x1e, 0xff, 0xe1, 0x00, 0x05, 0x67, 0x42,
        0x00, 0x1e, 0xa6, 0x01, 0x68, 0xce, 0x3c, 0x80,
    ];
    MediaFrame::new_video(0, CodecId::H264, 0, 0, 0, data, true)
}

fn h264_frame(pts: u32, payload: &[u8], key: bool) -> MediaFrame {
    let mut data = vec![if key { 0x17 } else { 0x27 }, 0x01, 0x00, 0x00, 0x00];
    data.extend_from_slice(payload);
    MediaFrame::new_video(0, CodecId::H264, pts, pts as u64, pts as u64, data, key)
}

fn aac_config() -> MediaFrame {
    MediaFrame::new_audio(1, CodecId::AAC, 0, 0, 0, vec![0xAF, 0x00, 0x12, 0x10])
}

fn aac_frame(pts: u32) -> MediaFrame {
    MediaFrame::new_audio(
        1,
        CodecId::AAC,
        pts,
        pts as u64,
        pts as u64,
        vec![0x12, 0x10, 0x01, 0x02],
    )
}

fn holds(data: &[u8], kind: &[u8]) -> bool {
    data.windows(4).any(|w| w == kind)
}

fn build_test_mp4() -> Vec<u8> {
    let mut muxer = Mp4Muxer::new();
    let mut cfg = h264_config();
    cfg.config_frame = true;
    push_video(&mut muxer, &cfg);
    for (i, ts) in [0u32, 33, 66].iter().enumerate() {
        let is_key = i == 0;
        let f = h264_frame(*ts, &[0xAA + i as u8; 4], is_key);
        push_video(&mut muxer, &f);
    }
    let mut acfg = aac_config();
    acfg.config_frame = true;
    push_audio(&mut muxer, &acfg);
    for ts in [0u32, 23] {
        let f = MediaFrame::new_audio(
            1,
            CodecId::AAC,
            ts,
            ts as u64,
            ts as u64,
            vec![0xAF, 0x01, 0x01, 0x02, 0x03],
        );
        push_audio(&mut muxer, &f);
    }
    muxer.finalize()
}

#[test]
fn demux_roundtrip_counts_and_codecs() {
    let mp4 = build_test_mp4();
    assert!(mp4.len() > 100);
    let demuxer = Mp4Demuxer::from_bytes(&mp4).expect("parse mp4");
    let tracks = demuxer.tracks();
    assert_eq!(tracks.len(), 2, "expected video + audio tracks");

    let video = tracks
        .iter()
        .find(|t| t.handler == TrackKind::Video)
        .unwrap();
    assert_eq!(video.codec, CodecId::H264);
    assert_eq!(video.sample_count, 3);
    assert!(!video.config.is_empty());

    let audio = tracks
        .iter()
        .find(|t| t.handler == TrackKind::Audio)
        .unwrap();
    assert_eq!(audio.codec, CodecId::AAC);
    assert_eq!(audio.sample_count, 2);

    let vs = demuxer.samples_for(video.track_id).unwrap();
    assert_eq!(vs.len(), 3);
    assert!(vs[0].pts_ms <= vs[1].pts_ms);
    assert!(vs[1].pts_ms <= vs[2].pts_ms);
    assert!(vs[0].is_sync, "first video frame should be a key frame");
}

#[test]
fn demuxed_samples_are_the_pushed_ones() {
    let demuxer = Mp4Demuxer::from_bytes(&build_test_mp4()).unwrap();
    let tracks = demuxer.tracks();
    let vs = demuxer.samples_for(tracks[0].track_id).unwrap();
    for i in 0..3 {
        assert_eq!(vs[i].data, vec![0xAA + i as u8; 4]);
    }
    let sounds = demuxer.samples_for(tracks[1].track_id).unwrap();
    assert_eq!(sounds[0].data, vec![1, 2, 3]);
    assert!(demuxer.samples_for(77).is_none());
    assert_eq!(demuxer.all_samples().len(), 2);
}

#[test]
fn demux_to_media_frames_rebuilds_flv() {
    let mp4 = build_test_mp4();
    let demuxer = Mp4Demuxer::from_bytes(&mp4).unwrap();
    let frames = demuxer.to_media_frames();
    assert_eq!(frames.len(), 7);
    assert!(frames
        .iter()
        .any(|f| f.config_frame && f.frame_type == FrameType::Video));
    assert!(frames
        .iter()
        .any(|f| f.config_frame && f.frame_type == FrameType::Audio));
    let first_video = frames
        .iter()
        .find(|f| f.frame_type == FrameType::Video && !f.config_frame)
        .unwrap();
    assert_eq!(first_video.data[0], 0x17);
}

#[test]
fn demux_interleaved_frames_are_pts_ordered() {
    let mp4 = build_test_mp4();
    let mut demuxer = Mp4Demuxer::from_bytes(&mp4).unwrap();
    let frames = demuxer.interleaved_media_frames();
    assert_eq!(frames.len(), 7);
    assert!(frames[0].config_frame && frames[0].frame_type == FrameType::Video);
    assert!(frames[1].config_frame && frames[1].frame_type == FrameType::Audio);

    let data_pts: Vec<u32> = frames
        .iter()
        .filter(|f| !f.config_frame)
        .map(|f| f.timestamp)
        .collect();
    let mut sorted = data_pts.clone();
    sorted.sort();
    assert_eq!(
        data_pts, sorted,
        "data frames must be in playback (pts) order"
    );

    let audio_id = demuxer
        .tracks()
        .iter()
        .find(|t| t.handler == TrackKind::Audio)
        .unwrap()
        .track_id;
    let rate = config_to_sample_rate(&demuxer.tracks()[1].config);
    demuxer.set_track_params(audio_id, None, Some(rate));
    let tracks = demuxer.tracks();
    let audio = tracks
        .iter()
        .find(|t| t.handler == TrackKind::Audio)
        .unwrap();
    assert!(audio.sample_rate > 0, "audio sample rate should be parsed");
    assert_eq!(audio.sample_rate, 44100);
}

#[test]
fn audio_configuration_is_found() {
    for config in [vec![0x11, 0x90], vec![0x12, 0x10, 0x56, 0xe5, 0x00], vec![0x05; 40]] {
        let mut muxer = Mp4Muxer::new();
        let mut acfg = aac_config();
        acfg.config_frame = true;
        muxer.push_frame(&acfg, true, Some(config.clone()));
        push_audio(&mut muxer, &aac_frame(0));
        assert!(muxer.can_finalize());
        let demuxer = Mp4Demuxer::from_bytes(&muxer.finalize()).unwrap();
        assert_eq!(demuxer.tracks()[0].config, config);
    }
}

#[test]
fn audio_configuration_of_common_files_is_found() {
    let mut esds = vec![0, 0, 0, 0, 0x03, 0x19, 0, 1, 0, 0x04, 0x11, 0x40, 0x15, 0, 0, 0];
    esds.extend_from_slice(&[0, 1, 0xf4, 0, 0, 1, 0xf4, 0]);
    esds.extend_from_slice(&[0x05, 0x02, 0x11, 0x90, 0x06, 0x01, 0x02]);
    assert_eq!(parse_esds_asc(&esds), Some(vec![0x11, 0x90]));
    assert_eq!(parse_esds_asc(&[0, 0, 0, 0, 0x05, 0x02, 0x12, 0x10]), Some(vec![0x12, 0x10]));
    assert_eq!(parse_esds_asc(&[0, 0, 0, 0, 0x06, 0x01, 0x02]), None);
    assert_eq!(parse_esds_asc(&[0, 0]), None);
}

#[test]
fn fuzz_smoke_mp4_demuxer_never_panics() {
    let valid = build_test_mp4();
    let stride = (valid.len() / 512).max(1);
    for len in (0..valid.len()).step_by(stride) {
        let _ = Mp4Demuxer::from_bytes(&valid[..len]);
    }
    for index in (0..valid.len()).step_by(stride) {
        let mut mutated = valid.clone();
        mutated[index] ^= 0xff;
        let _ = Mp4Demuxer::from_bytes(&mutated);
    }
}

#[test]
fn new_muxer_empty() {
    let mut muxer = Mp4Muxer::new();
    let out = muxer.finalize();
    assert!(out.is_empty());
}

#[test]
fn finalize_with_video_only() {
    let mut muxer = Mp4Muxer::new();
    push_video(&mut muxer, &h264_config());
    push_video(&mut muxer, &h264_frame(0, &[0x01, 0x02, 0x03], true));
    push_video(&mut muxer, &h264_frame(33, &[0x04, 0x05], false));
    push_video(&mut muxer, &h264_frame(66, &[0x06, 0x07], false));
    let out = muxer.finalize();
    assert!(!out.is_empty());
    assert_eq!(&out[4..8], b"ftyp");
    assert!(holds(&out, b"moov"));
    assert!(holds(&out, b"mdat"));
    assert!(holds(&out, b"avc1"));
    assert!(holds(&out, b"avcC"));
}

#[test]
fn finalize_with_audio_only() {
    let mut muxer = Mp4Muxer::new();
    push_audio(&mut muxer, &aac_config());
    push_audio(&mut muxer, &aac_frame(0));
    push_audio(&mut muxer, &aac_frame(23));
    let out = muxer.finalize();
    assert!(!out.is_empty());
    assert!(holds(&out, b"mp4a"));
    assert!(holds(&out, b"esds"));
}

#[test]
fn finalize_with_video_and_audio() {
    let mut muxer = Mp4Muxer::new();
    push_video(&mut muxer, &h264_config());
    push_audio(&mut muxer, &aac_config());
    push_video(&mut muxer, &h264_frame(0, &[0x01], true));
    push_audio(&mut muxer, &aac_frame(10));
    push_video(&mut muxer, &h264_frame(33, &[0x02], false));
    push_audio(&mut muxer, &aac_frame(40));
    let out = muxer.finalize();
    assert!(!out.is_empty());
    assert!(holds(&out, b"moov"));
    assert!(holds(&out, b"mdat"));
    assert!(holds(&out, b"mp4a"));
}

#[test]
fn compute_durations_handles_empty() {
    let mut muxer = Mp4Muxer::new();
    muxer.compute_durations();
    assert_eq!(muxer.samples().len(), 0);
}

#[test]
fn make_box_creates_correct_format() {
    let data = b"\x00\x00\x00\x01";
    let box_data = make_box(u32::from_be_bytes(*b"test"), data);
    assert_eq!(box_data.len(), 12);
    assert_eq!(&box_data[0..4], &12u32.to_be_bytes());
    assert_eq!(&box_data[4..8], b"test");
    assert_eq!(&box_data[8..], data);
}

#[test]
fn write_ftyp_produces_valid_box() {
    let mut buf = Vec::new();
    write_ftyp(&mut buf);
    assert_eq!(&buf[4..8], b"ftyp");
    assert_eq!(&buf[8..12], b"isom");
}

#[test]
fn write_stsd_for_audio() {
    let mut buf = Vec::new();
    let config = b"\x12\x10";
    write_stsd(&mut buf, CodecId::AAC, config, 0, 0);
    assert!(holds(&buf, b"mp4a"));
    assert!(holds(&buf, b"esds"));
}

#[test]
fn push_frame_order_preserved() {
    let mut muxer = Mp4Muxer::new();
    let mut cfg = h264_config();
    cfg.config_frame = true;
    push_video(&mut muxer, &cfg);
    push_video(&mut muxer, &h264_frame(0, &[0xAA], true));
    push_video(&mut muxer, &h264_frame(33, &[0xBB], false));
    push_video(&mut muxer, &h264_frame(66, &[0xCC], true));
    muxer.finalize();
    assert_eq!(muxer.samples().len(), 3);
    assert_eq!(&muxer.samples()[0].data[..], b"\xAA");
    assert_eq!(&muxer.samples()[2].data[..], b"\xCC");
}

#[test]
fn push_frame_strips_flv_headers_from_samples() {
    let mut muxer = Mp4Muxer::new();
    let frame = MediaFrame::new_video(
        0,
        CodecId::H264,
        0,
        0,
        0,
        vec![0x17, 1, 0, 0, 0, 0, 0, 0, 2, 0x65, 0x88],
        true,
    )
    .with_payload_format(PayloadFormat::Flv);
    push_video(&mut muxer, &frame);

    assert_eq!(muxer.samples().len(), 1);
    assert_eq!(muxer.samples()[0].data, vec![0, 0, 0, 2, 0x65, 0x88]);
}

#[test]
fn frame_without_payload_is_left_out() {
    let mut muxer = Mp4Muxer::new();
    muxer.push_frame(&h264_frame(5, &[1], true), false, None);
    assert_eq!(muxer.samples().len(), 0);
    let opus = MediaFrame::new_audio(1, CodecId::Opus, 25, 25, 25, vec![4, 5]);
    muxer.push_frame(&opus, false, None);
    assert_eq!(muxer.samples()[0].data, vec![4, 5]);
    assert_eq!(muxer.samples()[0].timestamp, 20);
}

#[test]
fn broken_configuration_cannot_be_written() {
    let mut muxer = Mp4Muxer::new();
    let mut cfg = h264_config();
    cfg.config_frame = true;
    muxer.push_frame(&cfg, true, Some(vec![0x67, 1, 2, 3, 4, 5]));
    assert!(muxer.can_finalize());
    push_video(&mut muxer, &h264_frame(0, &[1], true));
    assert!(!muxer.can_finalize());
}

#[test]
fn durations_follow_the_gaps() {
    let mut muxer = Mp4Muxer::new();
    push_video(&mut muxer, &h264_frame(0, &[1], true));
    push_video(&mut muxer, &h264_frame(40, &[2], false));
    push_video(&mut muxer, &h264_frame(100, &[3], false));
    muxer.compute_durations();
    let durations: Vec<u32> = muxer.samples().iter().map(|s| s.duration).collect();
    assert_eq!(durations[1], 3600);
    assert_eq!(durations[2], 5400);
}

#[test]
fn broken_files_name_what_is_missing() {
    assert!(matches!(
        Mp4Demuxer::from_bytes(&[]),
        Err(Mp4Error::MissingBox(MOOV))
    ));
    assert!(matches!(
        Mp4Demuxer::from_bytes(&make_box(MOOV, &[])),
        Err(Mp4Error::MissingBox(_))
    ));
    let mut long = vec![0, 0, 0, 1];
    long.extend_from_slice(b"moov");
    assert!(matches!(
        read_box_header(&long),
        Err(Mp4Error::TruncatedHeader)
    ));
    let walked = BoxCursor::new(&[0, 0, 0, 8, 1, 2, 3, 4, 0, 0, 0, 99, 5, 6, 7, 8])
        .walk_top_boxes_vec()
        .unwrap();
    assert_eq!(walked.len(), 1);
}

#[test]
fn tables_are_checked() {
    assert!(parse_stts(&[0, 0, 0, 0, 0, 0, 0, 9], 1).is_err());
    assert_eq!(
        parse_stts(&[0, 0, 0, 0, 0, 0, 0, 1, 0, 0, 0, 2, 0, 0, 0, 7], 2).unwrap(),
        vec![7, 7]
    );
    assert_eq!(
        parse_stsz(&[0, 0, 0, 0, 0, 0, 0, 3, 0, 0, 0, 2], 100).unwrap(),
        vec![3, 3]
    );
    assert!(parse_stsz(&[0, 0, 0, 0, 0, 0, 0, 0, 0, 0, 0, 2, 0, 0], 100).is_err());
    assert_eq!(
        parse_stco(&[0, 0, 0, 0, 0, 0, 0, 1, 0, 0, 0, 40]).unwrap(),
        vec![40]
    );
    assert_eq!(
        parse_stsc(&[0, 0, 0, 0, 0, 0, 0, 1, 0, 0, 0, 1, 0, 0, 0, 5, 0, 0, 0, 1]).unwrap(),
        vec![(1, 5, 1)]
    );
    assert_eq!(
        parse_stss(&[0, 0, 0, 0, 0, 0, 0, 1, 0, 0, 0, 3]).unwrap(),
        vec![3]
    );
}

#[test]
fn records_are_read() {
    assert_eq!(config_to_sample_rate(&[0x12, 0x10]), 44100);
    assert_eq!(config_to_sample_rate(&[0x11, 0x90]), 48000);
    assert_eq!(
        split_nalus_avcc(&[0, 0, 0, 2, 0x67, 1, 0, 0, 0, 1, 0x68]),
        vec![vec![0x67, 1], vec![0x68]]
    );
}

#[test]
fn track_params_follow_the_parsers() {
    let (w, h, fps, rate) =
        derive_track_params(TrackKind::Video, CodecId::H264, Some((640, 480)), None);
    assert_eq!((w, h, rate), (640, 480, 0));
    assert!(fps > 0);
    let (w, h, _, rate) = derive_track_params(TrackKind::Audio, CodecId::AAC, None, Some(48000));
    assert_eq!((w, h, rate), (0, 0, 48000));
}

#[test]
fn mp4_recorder_writes_valid_file() {
    let sps = [0x67u8, 0x42, 0x00, 0x1f, 0x9a, 0x66, 0x02, 0x80, 0x2c, 0x8e];
    let pps = [0x68u8, 0xee, 0x3c, 0x80];
    let mut config = vec![
        0x17, 0x00, 0x00, 0x00, 0x00, 0x01, 0x42, 0x00, 0x1f, 0xff, 0xe1, 0x00, 0x0a,
    ];
    config.extend_from_slice(&sps);
    config.push(0x01);
    config.extend_from_slice(&[0x00, 0x04]);
    config.extend_from_slice(&pps);
    let cfg = MediaFrame::new_video(0, CodecId::H264, 0, 0, 0, config, false);
    let unit = |kind: u8| vec![0x00, 0x00, 0x00, 0x05, kind, 0x9a, 0x00, 0x15, 0x20];
    let mut recorder = Mp4Recorder::new();
    recorder.push_config(&cfg, true, flv_body(&cfg, 5));
    let key = h264_frame(0, &unit(0x65), true);
    recorder.push_cached(&key, false, flv_body(&key, 5));
    for i in 0..3u32 {
        let is_key = i == 2;
        let frame = h264_frame(i * 100, &unit(if is_key { 0x65 } else { 0x41 }), is_key);
        recorder.push_live(&frame, false, flv_body(&frame, 5));
    }
    assert!(recorder.can_finish());
    let data = recorder.finish().unwrap().data;
    assert!(data.len() > 16, "file should be larger than minimal MP4");
    assert_eq!(&data[4..8], b"ftyp", "should start with ftyp box");
    assert!(holds(&data, b"mdat"), "should have mdat box");
    assert!(holds(&data, b"moov"), "should have moov box");
    let demuxer = Mp4Demuxer::from_bytes(&data).unwrap();
    assert_eq!(demuxer.tracks()[0].sample_count, 4);
}

#[test]
fn mp4_recorder_no_frames_still_writes_header() {
    let mut recorder = Mp4Recorder::new();
    assert!(recorder.can_finish());
    assert!(recorder.finish().is_none());
}

#[test]
fn recorder_collects_a_file() {
    assert_eq!(recording_directory("rec", "live", "cam"), "rec/live/cam");
    let mut recorder = Mp4Recorder::new();
    assert!(recorder.finish().is_none());
    let mut recorder = Mp4Recorder::new();
    let cfg = h264_config();
    recorder.push_config(&cfg, true, flv_body(&cfg, 5));
    for (ts, key) in [(0u32, true), (40, false), (80, false)] {
        let f = h264_frame(ts, &[1, 2], key);
        recorder.push_live(&f, false, flv_body(&f, 5));
    }
    assert!(recorder.can_finish());
    let file = recorder.finish().unwrap();
    assert_eq!(file.time_len_ms, 80);
    let demuxer = Mp4Demuxer::from_bytes(&file.data).unwrap();
    assert_eq!(demuxer.tracks()[0].sample_count, 3);
}

#[test]
fn frames_keep_what_they_are_made_of() {
    let f = h264_frame(7, &[1], true).with_payload_format(PayloadFormat::Avcc);
    let g = f.duplicate();
    assert_eq!(g.data, f.data);
    assert_eq!(g.payload_format, PayloadFormat::Avcc);
    assert_eq!(g.timestamp, 7);
    assert!(!matches!(g.frame_type, FrameType::Audio));
}

#[test]
fn a_file_is_written_again_with_the_same_bytes() {
    let mut muxer = Mp4Muxer::new();
    push_video(&mut muxer, &h264_config());
    push_audio(&mut muxer, &aac_config());
    push_video(&mut muxer, &h264_frame(0, &[0x01], true));
    push_audio(&mut muxer, &aac_frame(10));
    push_video(&mut muxer, &h264_frame(33, &[0x02], false));
    push_audio(&mut muxer, &aac_frame(40));
    let first = muxer.finalize();
    assert!(muxer.can_finalize());
    assert_eq!(muxer.finalize(), first);
}
