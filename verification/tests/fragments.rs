use zlmediakit::http::dash_window::{DashWindow, WINDOW};
use zlmediakit::http::ws_session::{carry, CachedFrame, LiveFmp4};
use zlmediakit::media::{CodecId, MediaFrame, PayloadFormat, TrackInfo};
use zlmediakit::mp4::fmp4::{fragment_config, Fmp4Muxer};
use zlmediakit::mp4::fragmented_demuxer::{
    boxes, descriptor_length, extract_asc, Fmp4Demuxer, FragmentError,
};
use zlmediakit::mp4::recorder::Fmp4Recorder;

fn h264_config_bytes() -> Vec<u8> {
    vec![
        0x17, 0x00, 0x00, 0x00, 0x00, 0x01, 0x64, 0x00, 0x0a, 0xFF, 0xE1, 0x00, 0x04, 0x67, 0x64,
        0x00, 0x0a, 0x01, 0x00, 0x04, 0x68, 0xee, 0x3c, 0x80,
    ]
}

fn make_config_frame(codec: CodecId, data: &[u8], video: bool) -> MediaFrame {
    let mut f = if video {
        MediaFrame::new_video(0, codec, 0, 0, 0, data.to_vec(), false)
    } else {
        MediaFrame::new_audio(0, codec, 0, 0, 0, data.to_vec())
    };
    f.config_frame = true;
    f
}

fn make_media_frame(codec: CodecId, data: &[u8], timestamp: u32, key: bool) -> MediaFrame {
    MediaFrame::new_video(
        0,
        codec,
        timestamp,
        timestamp as u64,
        timestamp as u64,
        data.to_vec(),
        key,
    )
}

fn prefixed(unit: &[u8]) -> Option<Vec<u8>> {
    let mut out = (unit.len() as u32).to_be_bytes().to_vec();
    out.extend_from_slice(unit);
    Some(out)
}

fn holds(data: &[u8], kind: &[u8]) -> bool {
    data.windows(4).any(|w| w == kind)
}

#[test]
fn init_segment_produces_valid_boxes() {
    let mut muxer = Fmp4Muxer::new(90000);
    let h264_config = h264_config_bytes();
    let frame = make_config_frame(CodecId::H264, &h264_config, true);
    muxer.push_frame(&frame, None);

    let init = muxer.init_segment();
    assert!(init.is_init);
    assert!(!init.data.is_empty());
    assert!(holds(&init.data, b"ftyp"), "init must have ftyp");
    assert!(holds(&init.data, b"moov"), "init must have moov");
}

#[test]
fn empty_flush_returns_none() {
    let mut muxer = Fmp4Muxer::new(90000);
    assert!(muxer.flush_segment().is_none());
}

#[test]
fn media_segment_has_moof_and_mdat() {
    let mut muxer = Fmp4Muxer::new(90000);
    let cfg = make_config_frame(CodecId::H264, &h264_config_bytes(), true);
    muxer.push_frame(&cfg, None);

    let sample = make_media_frame(
        CodecId::H264,
        &[0x00, 0x00, 0x00, 0x01, 0x21, 0x01],
        100,
        true,
    );
    muxer.push_frame(&sample, prefixed(&[0x21, 0x01]));

    let seg = muxer.flush_segment().unwrap();
    assert!(!seg.is_init);
    assert!(holds(&seg.data, b"moof"), "segment must have moof");
    assert!(holds(&seg.data, b"mdat"), "segment must have mdat");
    assert!(seg.duration > 0);
}

#[test]
fn demuxes_muxer_init_and_media_fragment() {
    let mut muxer = Fmp4Muxer::new(90_000);
    let mut config = MediaFrame::new_video(
        0,
        CodecId::H264,
        0,
        0,
        0,
        vec![
            0x17, 0, 0, 0, 0, 0x01, 0x64, 0, 0x0a, 0xff, 0xe1, 0, 4, 0x67, 0x64, 0, 0x0a, 1, 0, 4,
            0x68, 0xee, 0x3c, 0x80,
        ],
        false,
    )
    .with_payload_format(PayloadFormat::Flv);
    config.config_frame = true;
    muxer.push_frame(&config, None);
    muxer.push_frame(
        &MediaFrame::new_video(
            0,
            CodecId::H264,
            0,
            0,
            0,
            vec![0, 0, 0, 1, 0x65, 1, 2, 3],
            true,
        )
        .with_payload_format(PayloadFormat::AnnexB),
        prefixed(&[0x65, 1, 2, 3]),
    );

    let demuxer = Fmp4Demuxer::from_init_segment(&muxer.init_segment().data).unwrap();
    assert_eq!(demuxer.track_info().len(), 1);
    assert_eq!(demuxer.config_frames()[0].codec, CodecId::H264);
    let segment = muxer.flush_segment().unwrap();
    let frames = demuxer.demux_fragment(&segment.data).unwrap();
    assert_eq!(frames.len(), 1);
    assert_eq!(frames[0].codec, CodecId::H264);
    assert!(frames[0].key_frame);
    assert_eq!(frames[0].payload_format, PayloadFormat::Avcc);
    assert_eq!(&frames[0].data[..], &[0, 0, 0, 4, 0x65, 1, 2, 3]);
}

#[test]
fn demuxes_aac_track_and_raw_sample() {
    let mut muxer = Fmp4Muxer::new(90_000);
    let mut config = MediaFrame::new_audio(1, CodecId::AAC, 0, 0, 0, vec![0xaf, 0, 0x12, 0x10])
        .with_payload_format(PayloadFormat::Flv);
    config.config_frame = true;
    muxer.push_frame(&config, None);
    muxer.push_frame(
        &MediaFrame::new_audio(1, CodecId::AAC, 0, 0, 0, vec![0xaf, 1, 0x11, 0x22, 0x33])
            .with_payload_format(PayloadFormat::Flv),
        Some(vec![0x11, 0x22, 0x33]),
    );

    let demuxer = Fmp4Demuxer::from_init_segment(&muxer.init_segment().data).unwrap();
    assert!(demuxer
        .track_info()
        .iter()
        .any(|track| matches!(track, TrackInfo::Audio(audio) if audio.codec == CodecId::AAC)));
    assert_eq!(&demuxer.config_frames()[0].data[..], &[0x12, 0x10]);
    let frames = demuxer
        .demux_fragment(&muxer.flush_segment().unwrap().data)
        .unwrap();
    assert_eq!(frames.len(), 1);
    assert_eq!(frames[0].codec, CodecId::AAC);
    assert_eq!(frames[0].payload_format, PayloadFormat::AacRaw);
    assert_eq!(&frames[0].data[..], &[0x11, 0x22, 0x33]);
}

#[test]
fn several_samples_of_two_tracks_come_back() {
    let mut muxer = Fmp4Muxer::new(90_000);
    let config = make_config_frame(CodecId::H264, &h264_config_bytes(), true);
    muxer.push_frame(&config, None);
    let sound = make_config_frame(CodecId::AAC, &[0xaf, 0, 0x12, 0x10], false);
    muxer.push_frame(&sound, None);
    for i in 0..3u8 {
        let f = make_media_frame(CodecId::H264, &[i], 40 * i as u32, i == 0);
        muxer.push_frame(&f, prefixed(&[0x65, i]));
        let a = MediaFrame::new_audio(
            1,
            CodecId::AAC,
            40 * i as u32,
            40 * i as u64,
            40 * i as u64,
            vec![i],
        );
        muxer.push_frame(&a, Some(vec![9, i]));
    }
    assert!(muxer.has_samples());
    assert_eq!(muxer.video_codec(), Some(CodecId::H264));
    assert_eq!(muxer.audio_codec(), Some(CodecId::AAC));
    let demuxer = Fmp4Demuxer::from_init_segment(&muxer.init_segment().data).unwrap();
    let segment = muxer.flush_segment().unwrap();
    assert!(!muxer.has_samples());
    let frames = demuxer.demux_fragment(&segment.data).unwrap();
    let pictures: Vec<Vec<u8>> = frames
        .iter()
        .filter(|f| f.codec == CodecId::H264)
        .map(|f| f.data.clone())
        .collect();
    assert_eq!(
        pictures,
        vec![
            vec![0, 0, 0, 2, 0x65, 0],
            vec![0, 0, 0, 2, 0x65, 1],
            vec![0, 0, 0, 2, 0x65, 2]
        ]
    );
    let sounds: Vec<Vec<u8>> = frames
        .iter()
        .filter(|f| f.codec == CodecId::AAC)
        .map(|f| f.data.clone())
        .collect();
    assert_eq!(sounds, vec![vec![9, 0], vec![9, 1], vec![9, 2]]);
}

#[test]
fn broken_segments_are_errors() {
    assert!(matches!(
        Fmp4Demuxer::from_init_segment(&[]),
        Err(FragmentError::MissingBox(_))
    ));
    assert!(matches!(
        boxes(&[0, 0, 0, 99, 1, 2, 3, 4], 0, 8),
        Err(FragmentError::InvalidBoxSize)
    ));
    assert_eq!(
        boxes(&[0, 0, 0, 8, 1, 2, 3, 4], 0, 8).unwrap().len(),
        1
    );
    assert!(descriptor_length(&[0x80], 0).is_none());
    assert_eq!(descriptor_length(&[0x81, 0x01], 0), Some((129, 2)));
    assert_eq!(extract_asc(&[0, 0]), Vec::<u8>::new());
}

#[test]
fn mutated_segments_do_not_panic() {
    let mut muxer = Fmp4Muxer::new(90_000);
    let config = make_config_frame(CodecId::H264, &h264_config_bytes(), true);
    muxer.push_frame(&config, None);
    let f = make_media_frame(CodecId::H264, &[1], 0, true);
    muxer.push_frame(&f, prefixed(&[0x65, 7]));
    let init = muxer.init_segment().data;
    let demuxer = Fmp4Demuxer::from_init_segment(&init).unwrap();
    let segment = muxer.flush_segment().unwrap().data;
    for i in 0..init.len() {
        let mut m = init.clone();
        m[i] ^= 0xff;
        let _ = Fmp4Demuxer::from_init_segment(&m);
    }
    for i in 0..segment.len() {
        let mut m = segment.clone();
        m[i] ^= 0xff;
        let _ = demuxer.demux_fragment(&m);
        let _ = demuxer.demux_fragment(&segment[..i]);
    }
}

#[test]
fn recorder_numbers_its_segments() {
    let mut recorder = Fmp4Recorder::new();
    let config = make_config_frame(CodecId::H264, &h264_config_bytes(), true);
    recorder.push_config(&config, None);
    assert_eq!(recorder.init_file().name, "init.mp4");
    assert!(recorder.flush().is_none());
    for i in 0..2u32 {
        let f = make_media_frame(CodecId::H264, &[1], 40 * i, true);
        recorder.push(&f, false, prefixed(&[0x65]));
        assert!(recorder.can_flush());
        let file = recorder.flush().unwrap();
        recorder.written();
        assert!(file.name.starts_with("seg-") && file.name.ends_with(".m4s"));
        assert!(holds(&file.data, b"moof"));
    }
}

#[test]
fn live_segments_end_at_key_frames() {
    let mut live = LiveFmp4::new();
    let config = make_config_frame(CodecId::H264, &h264_config_bytes(), true);
    live.push_config(&config, None);
    assert!(holds(&live.init(), b"moov"));
    let p = make_media_frame(CodecId::H264, &[1], 40, false);
    assert!(!live.push(&p, false, prefixed(&[0x41])));
    assert!(!live.push(&config, true, None));
    let k = make_media_frame(CodecId::H264, &[1], 80, true);
    assert!(live.push(&k, false, prefixed(&[0x65])));
    assert!(live.can_flush());
    assert!(live.flush().is_some());
    assert!(live.flush().is_none());
}

#[test]
fn window_keeps_the_latest_segments() {
    let mut window = DashWindow::new();
    assert!(window.latest().is_none());
    window.flush();
    assert!(window.latest().is_none());
    let mut last = 0;
    for i in 0..(WINDOW as u32 + 3) {
        let f = make_media_frame(CodecId::H264, &[1], 40 * i, true);
        window.push(&f, true, prefixed(&[0x65]));
        window.push(&f, false, prefixed(&[0x65]));
        assert!(window.can_flush());
        window.flush();
        let sequence = window.latest().unwrap().sequence;
        assert!(i == 0 || sequence == last + 1);
        last = sequence;
    }
}

#[test]
fn cached_frames_are_replayed() {
    let cached = |timestamp: u32, key: bool, is_config: bool| CachedFrame {
        frame: make_media_frame(CodecId::H264, &[1], timestamp, key),
        is_config,
        payload: prefixed(&[0x65]),
    };
    let mut live = LiveFmp4::new();
    let gop = vec![
        cached(0, true, false),
        cached(0, true, true),
        cached(40, false, false),
        cached(80, true, false),
        cached(120, false, false),
    ];
    let segments = live.replay(&gop).unwrap();
    assert_eq!(segments.len(), 3);
    assert!(segments.iter().all(|s| holds(s, b"moof")));
    assert!(live.flush().is_none());
    assert_eq!(live.replay(&vec![]).unwrap().len(), 0);
}

#[test]
fn empty_outputs_are_not_carried() {
    let frames = carry(&vec![vec![1, 2], vec![], vec![3]]);
    assert_eq!(frames, vec![vec![0x82, 2, 1, 2], vec![0x82, 1, 3]]);
}

#[test]
fn demuxed_configuration_is_written_whole_again() {
    let mut muxer = Fmp4Muxer::new(90_000);
    let config = make_config_frame(CodecId::H264, &h264_config_bytes(), true);
    muxer.push_frame(&config, None);
    let demuxer = Fmp4Demuxer::from_init_segment(&muxer.init_segment().data).unwrap();
    let pulled = &demuxer.config_frames()[0];
    assert_eq!(pulled.payload_format, PayloadFormat::Avcc);
    assert_eq!(pulled.data, h264_config_bytes()[5..].to_vec());
    let mut again = Fmp4Muxer::new(90_000);
    again.push_frame(pulled, None);
    assert_eq!(again.init_segment().data, muxer.init_segment().data);
}

#[test]
fn configurations_are_taken_by_their_layout() {
    let config = |codec: CodecId, format: PayloadFormat, data: &[u8]| {
        fragment_config(
            &make_config_frame(codec, data, codec != CodecId::AAC).with_payload_format(format),
        )
    };
    let pictures = [0x17, 0, 0, 0, 0, 1, 0x64];
    for codec in [CodecId::H264, CodecId::H265] {
        assert_eq!(config(codec, PayloadFormat::Flv, &pictures), Some(vec![1, 0x64]));
        assert_eq!(config(codec, PayloadFormat::Unspecified, &pictures), Some(vec![1, 0x64]));
        assert_eq!(config(codec, PayloadFormat::Avcc, &pictures), Some(pictures.to_vec()));
        assert_eq!(config(codec, PayloadFormat::Hvcc, &pictures), Some(pictures.to_vec()));
        assert_eq!(config(codec, PayloadFormat::AnnexB, &pictures), None);
        assert_eq!(config(codec, PayloadFormat::Flv, &pictures[..5]), Some(vec![]));
        assert_eq!(config(codec, PayloadFormat::Flv, &[1, 2, 3, 4]), Some(vec![1, 2, 3, 4]));
    }
    let sound = [0xaf, 0, 0x12, 0x10];
    assert_eq!(config(CodecId::AAC, PayloadFormat::Flv, &sound), Some(vec![0x12, 0x10]));
    assert_eq!(config(CodecId::AAC, PayloadFormat::Unspecified, &sound), Some(vec![0x12, 0x10]));
    assert_eq!(
        config(CodecId::AAC, PayloadFormat::AacAudioSpecificConfig, &sound),
        Some(sound.to_vec())
    );
    assert_eq!(config(CodecId::AAC, PayloadFormat::Flv, &sound[2..]), Some(vec![0x12, 0x10]));
    assert_eq!(config(CodecId::AAC, PayloadFormat::Flv, &sound[..2]), Some(vec![0xaf, 0]));
    assert_eq!(config(CodecId::VP9, PayloadFormat::Flv, &pictures), Some(pictures.to_vec()));
}

#[test]
fn parameter_sets_with_start_codes_need_a_record() {
    let config = make_config_frame(CodecId::H264, &[0, 0, 0, 1, 0x67, 0x64], true)
        .with_payload_format(PayloadFormat::AnnexB);
    let mut muxer = Fmp4Muxer::new(90_000);
    muxer.push_frame(&config, None);
    assert_eq!(muxer.video_codec(), None);
    let written = h264_config_bytes()[5..].to_vec();
    muxer.push_frame(&config, Some(written.clone()));
    assert_eq!(muxer.video_codec(), Some(CodecId::H264));
    let demuxer = Fmp4Demuxer::from_init_segment(&muxer.init_segment().data).unwrap();
    assert_eq!(demuxer.config_frames()[0].data, written);
}

#[test]
fn other_pictures_are_stored_as_they_are() {
    let mut muxer = Fmp4Muxer::new(90_000);
    muxer.push_frame(&make_config_frame(CodecId::VP9, &[1, 2, 3, 4, 5, 6], true), None);
    assert_eq!(muxer.video_codec(), Some(CodecId::VP9));
    muxer.push_frame(&make_media_frame(CodecId::VP9, &[9, 8, 7], 0, true), None);
    assert!(muxer.has_samples());
    let segment = muxer.flush_segment().unwrap();
    assert!(segment.data.ends_with(&[b'm', b'd', b'a', b't', 9, 8, 7]));
    assert_eq!(segment.duration, 3600);
    muxer.push_frame(&make_media_frame(CodecId::H264, &[9, 8, 7], 40, true), None);
    assert!(!muxer.has_samples());
}
