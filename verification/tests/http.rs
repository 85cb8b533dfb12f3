use zlmediakit::http::dashboard::{build_dashboard_html, dashboard_response};
use zlmediakit::http::files::{
    dir_listing, dir_listing_response, extension, extract_range, file_header, mime_for, next_read,
    plan_file, safe_join, static_action, static_target, vod_request, StaticAction, VodRequest,
};
use zlmediakit::http::live::{
    check_rates, cmaf_init_stream, cmaf_playlist_stream, cmaf_segment_request, dash_init_stream,
    dash_manifest, dash_segment_stream, find_index, hls_playlist, hls_playlist_response,
    hls_playlist_stream, hls_segment_request, refuse_play, sends_frame, PlaylistSegment,
};
use zlmediakit::http::recordings::{list_record_files, parse_record_start, record_file_name};
use zlmediakit::http::request::{
    dispatch, find_websocket_key, hook_params, is_play_route, parse_path, parse_route,
    request_text, select_handler, Dispatch, Route,
};
use zlmediakit::http::responses::{
    content_header, content_response, failure_response, json_response, stream_header, vod_header,
    CachePolicy, Failure,
};
use zlmediakit::http::router::Router;
use zlmediakit::http::snapshot::{
    h264_to_annexb, refuse_snapshot, snapshot_file, snapshot_units, vod_action, vod_metadata,
    SnapProgress, VodAction,
};
use zlmediakit::http::ws_session::WsKind;
use zlmediakit::media::{AudioInfo, CodecId, MediaFrame, TrackInfo, VideoInfo};
use zlmediakit::mp4::demuxer::DemuxedTrack;
use zlmediakit::mp4::entries::TrackKind;

#[test]
fn routes_match_by_prefix_in_order() {
    let mut router = Router::new();
    assert_eq!(router.match_route("/a"), None);
    router.add_route("/live", "first");
    router.add_route("/live/x", "second");
    router.add_route("/", "last");
    assert_eq!(router.match_route("/live/x"), Some("first"));
    assert_eq!(router.match_route("/other"), Some("last"));
    assert_eq!(Router::default().match_route("/live"), None);
}

#[test]
fn request_lines() {
    assert_eq!(parse_path("GET /a?b=c HTTP/1.1\r\nHost: x\r\n").as_deref(), Some("/a?b=c"));
    assert_eq!(parse_path("GET /a").as_deref(), Some("/a"));
    assert_eq!(parse_path("GET"), None);
    assert_eq!(parse_path(""), None);
    assert_eq!(parse_route("/a?b"), "/a");
    assert_eq!(request_text(b"GET /\xff"), "GET /\u{fffd}");
}

#[test]
fn handlers() {
    let cases = [
        ("/index/api/x.flv", Route::Api),
        ("/record/a.flv", Route::Vod),
        ("/live/a.flv", Route::Flv),
        ("/live/a.live.ts", Route::Ts),
        ("/live/a.live.mp4", Route::Fmp4),
        ("/live/a.mpd", Route::DashMpd),
        ("/live/a/seg-1.m4s", Route::M4s),
        ("/live/a/init.mp4", Route::DashInit),
        ("/live/a.cmav.m3u8", Route::CmafPlaylist),
        ("/live/a.m3u8", Route::HlsPlaylist),
        ("/live/a/1.ts", Route::HlsSegment),
        ("/", Route::Index),
        ("/index.html", Route::Index),
        ("/x", Route::NotFound),
    ];
    for (path, route) in cases {
        assert_eq!(select_handler(path, false), route);
        let plays = matches!(
            route,
            Route::Flv
                | Route::Ts
                | Route::Fmp4
                | Route::DashMpd
                | Route::M4s
                | Route::CmafPlaylist
                | Route::HlsPlaylist
                | Route::HlsSegment
        );
        assert!(!plays || is_play_route(path));
    }
    assert_eq!(select_handler("/", true), Route::Static);
    assert_eq!(select_handler("/x", true), Route::Static);
    assert!(is_play_route("/a.m3u8"));
    assert!(!is_play_route("/a/init.mp4"));
    assert!(!is_play_route("/index/api/a.flv"));
}

#[test]
fn upgrades_are_dispatched() {
    let text = "GET /live/a.live.ts?x=1 HTTP/1.1\r\nUpgrade: websocket\r\n\
                SEC-WebSocket-Key:  abc==  \r\n\r\n";
    assert_eq!(find_websocket_key(text), "abc==");
    match dispatch(text, false) {
        Dispatch::WebSocket { key, kind, path } => {
            assert_eq!(key, "abc==");
            assert_eq!(kind, WsKind::Ts);
            assert_eq!(path, "/live/a.live.ts?x=1");
        }
        _ => panic!("no upgrade"),
    }
    match dispatch("GET /live/a.flv HTTP/1.1\r\nUpgrade: websocket\r\n\r\n", false) {
        Dispatch::Http { route, ask_hook, path } => {
            assert_eq!(route, Route::Flv);
            assert!(ask_hook);
            assert_eq!(path, "/live/a.flv");
        }
        _ => panic!("an upgrade without a key"),
    }
    assert!(matches!(dispatch("GET\r\n", false), Dispatch::BadRequest));
    let (app, resource, sign, ip) = hook_params("/live/a.flv?sign=s", "1.2.3.4:5");
    assert_eq!(
        (app.as_str(), resource.as_str(), sign.as_str(), ip.as_str()),
        ("live", "a.flv", "s", "1.2.3.4")
    );
}

#[test]
fn responses_are_exact() {
    assert_eq!(
        failure_response(Failure::BadRequest),
        "HTTP/1.1 400 Bad Request\r\nContent-Length: 0\r\nConnection: close\r\n\r\n"
    );
    assert_eq!(
        failure_response(Failure::NotFound),
        "HTTP/1.1 404 Not Found\r\nContent-Length: 9\r\nConnection: close\r\n\r\nNot Found"
    );
    assert_eq!(
        failure_response(Failure::Unauthorized),
        "HTTP/1.1 401 Unauthorized\r\nContent-Type: text/plain\r\nContent-Length: 12\r\n\
         Connection: close\r\n\r\nUnauthorized"
    );
    assert_eq!(
        failure_response(Failure::ApiUnauthorized),
        "HTTP/1.1 401 Unauthorized\r\nContent-Type: application/json\r\nCache-Control: no-store\r\n\
         Content-Length: 51\r\nConnection: close\r\n\r\n\
         {\"code\":-401,\"msg\":\"invalid or missing API secret\"}"
    );
    assert_eq!(
        content_header("video/mp4", 5, true, CachePolicy::OneHour),
        "HTTP/1.1 200 OK\r\nContent-Type: video/mp4\r\nContent-Length: 5\r\n\
         Access-Control-Allow-Origin: *\r\nCache-Control: max-age=3600\r\n\
         Connection: close\r\n\r\n"
    );
    assert_eq!(
        content_response("text/plain", "\u{e9}", false, CachePolicy::NoCache),
        "HTTP/1.1 200 OK\r\nContent-Type: text/plain\r\nContent-Length: 2\r\n\
         Cache-Control: no-cache\r\nConnection: close\r\n\r\n\u{e9}"
    );
    assert_eq!(
        json_response("{}"),
        "HTTP/1.1 200 OK\r\nContent-Type: application/json\r\nContent-Length: 2\r\n\
         Connection: close\r\n\r\n{}"
    );
    assert_eq!(
        stream_header("video/x-flv"),
        "HTTP/1.1 200 OK\r\nContent-Type: video/x-flv\r\nConnection: close\r\n\
         Cache-Control: no-cache\r\n\r\n"
    );
    assert!(vod_header().starts_with("HTTP/1.1 200 OK\r\nContent-Type: video/x-flv\r\n"));
}

#[test]
fn paths_stay_below_the_root() {
    assert_eq!(safe_join("www", "a/./b//c").as_deref(), Some("www/a/b/c"));
    assert_eq!(safe_join("www", "/a").as_deref(), Some("www/a"));
    assert_eq!(safe_join("www", ""), Some("www".to_string()));
    assert_eq!(safe_join("www", "../etc/passwd"), None);
    assert_eq!(safe_join("www", "a/../b"), None);
    assert_eq!(static_target("www", "//css/style.css").as_deref(), Some("www/css/style.css"));
    assert_eq!(static_target("www", "/../etc/passwd"), None);
}

#[test]
fn types_follow_the_extension() {
    assert_eq!(extension("a/b.tar.gz").as_deref(), Some("gz"));
    assert_eq!(extension(".hidden"), None);
    assert_eq!(extension("a/.."), None);
    assert_eq!(extension("plain"), None);
    assert_eq!(mime_for("www/css/style.css"), "text/css");
    assert_eq!(mime_for("img/dot.PNG"), "image/png");
    assert_eq!(mime_for("a.m3u8"), "application/vnd.apple.mpegurl");
    assert_eq!(mime_for("a.mp4"), "video/mp4");
    assert_eq!(mime_for("a.unknown"), "application/octet-stream");
    assert_eq!(mime_for("plain"), "application/octet-stream");
}

#[test]
fn ranges_are_read() {
    assert_eq!(extract_range("GET / HTTP/1.0\r\nRange: bytes=0-99\r\n\r\n"), Some((0, Some(99))));
    assert_eq!(extract_range("GET /\r\nrange:bytes=5-\r\n"), Some((5, None)));
    assert_eq!(extract_range("GET /\r\nRange: bytes=-5\r\n"), None);
    assert_eq!(extract_range("GET /\r\nRange: items=1-2\r\n"), None);
    assert_eq!(extract_range("GET /\r\nRange: bytes=x-9\r\n"), Some((0, Some(9))));
    assert_eq!(extract_range("GET /\r\n"), None);
}

#[test]
fn file_parts_are_planned() {
    let whole = plan_file(12, None);
    assert_eq!((whole.start, whole.end, whole.len, whole.partial), (0, 11, 12, false));
    let part = plan_file(12, Some((0, Some(4))));
    assert_eq!((part.start, part.end, part.len, part.partial), (0, 4, 5, true));
    let beyond = plan_file(12, Some((50, Some(99))));
    assert_eq!((beyond.start, beyond.end, beyond.len), (11, 11, 1));
    let empty = plan_file(0, Some((0, None)));
    assert_eq!((empty.start, empty.end, empty.partial), (0, 0, false));
    assert_eq!(
        file_header("hello.txt", part, 12),
        "HTTP/1.1 206 Partial Content\r\nContent-Type: text/plain; charset=utf-8\r\n\
         Accept-Ranges: bytes\r\nContent-Length: 5\r\nContent-Range: bytes 0-4/12\r\n\
         Connection: close\r\n\r\n"
    );
    assert_eq!(
        file_header("hello.txt", whole, 12),
        "HTTP/1.1 200 OK\r\nContent-Type: text/plain; charset=utf-8\r\n\
         Accept-Ranges: bytes\r\nContent-Length: 12\r\nConnection: close\r\n\r\n"
    );
    assert_eq!(next_read(70000), 65536);
    assert_eq!(next_read(5), 5);
}

#[test]
fn directories_are_listed_in_order() {
    let items = vec![
        ("b.mp4".to_string(), false),
        ("a".to_string(), true),
        ("B".to_string(), false),
    ];
    assert_eq!(
        dir_listing("/record/live/", items.clone()),
        "<!DOCTYPE html><html><head><meta charset=\"utf-8\"><title>Recordings</title></head>\
         <body><h1>Recordings</h1><ul>\
         <li><a href=\"/record/live/B\">B</a></li>\
         <li><a href=\"/record/live/a\">a/</a></li>\
         <li><a href=\"/record/live/b.mp4\">b.mp4</a></li></ul></body></html>"
    );
    assert!(dir_listing("/", vec![("x".to_string(), false)]).contains("<a href=\"x\">x</a>"));
    assert!(dir_listing_response("/", vec![]).contains("Content-Type: text/html; charset=utf-8"));
}

#[test]
fn file_requests() {
    assert!(matches!(vod_request("/other"), VodRequest::NotFound));
    match vod_request("/record/mp4vod/sample.mp4.flv") {
        VodRequest::PlayMp4 { stream_path, file } => {
            assert_eq!(stream_path, "mp4vod/sample.mp4.flv");
            assert_eq!(file, "mp4vod/sample.mp4");
        }
        _ => panic!("not played"),
    }
    match vod_request("/record/live/vodtest/") {
        VodRequest::Fetch { stream_path, rel } => {
            assert_eq!(stream_path, "live/vodtest");
            assert_eq!(rel, "live/vodtest/");
        }
        _ => panic!("not fetched"),
    }
    assert_eq!(static_action(None, false), StaticAction::NotFound);
    assert_eq!(static_action(Some(false), false), StaticAction::File);
    assert_eq!(static_action(Some(true), true), StaticAction::IndexFile);
    assert_eq!(static_action(Some(true), false), StaticAction::Listing);
}

#[test]
fn record_times() {
    assert_eq!(parse_record_start("20240101_000000.mp4"), 1704067200000);
    assert_eq!(parse_record_start("20240229_123456.mp4"), 1709210096000);
    assert_eq!(parse_record_start("20230229_123456.mp4"), 0);
    assert_eq!(parse_record_start("20240101.mp4"), 1704067200000);
    assert_eq!(parse_record_start("2024-01-01_12-30.mp4"), 1704112200000);
    assert_eq!(parse_record_start("20240101_12.mp4"), 0);
    assert_eq!(parse_record_start("19691231_235959.mp4"), -1000);
    assert_eq!(parse_record_start("20000301_000000.mp4"), 951868800000);
    assert_eq!(parse_record_start("20240101_240000.mp4"), 0);
    assert_eq!(parse_record_start("camera.mp4"), 0);
}

#[test]
fn record_names_give_their_start() {
    assert_eq!(record_file_name(0), "19700101_000000.mp4");
    assert_eq!(record_file_name(1709210096), "20240229_123456.mp4");
    for seconds in [-1i64, 951868800, 1704067199, 253402300799, -62167219200] {
        assert_eq!(parse_record_start(&record_file_name(seconds)), seconds * 1000);
    }
}

#[test]
fn recordings_of_a_period() {
    let entries = vec![
        ("20240101_000000.mp4".to_string(), 10u64),
        ("20240102_000000.mp4".to_string(), 20),
        ("20240101_000000.flv".to_string(), 30),
    ];
    let files = list_record_files("rec/live/cam", "2024-01-01", "live", "cam", &entries);
    assert_eq!(files.len(), 1);
    assert_eq!(files[0].file_name, "20240101_000000.mp4");
    assert_eq!(files[0].file_path, "rec/live/cam/20240101_000000.mp4");
    assert_eq!(files[0].file_size, 10);
    assert_eq!(files[0].start_time, 1704067200000);
    assert_eq!(files[0].url, "/record/live/cam/20240101_000000.mp4");
    assert_eq!(list_record_files("r", "", "a", "s", &entries).len(), 2);
}

#[test]
fn play_refusals() {
    assert_eq!(refuse_play(false, true, true), Some(Failure::Unauthorized));
    assert_eq!(refuse_play(true, false, false), Some(Failure::Unauthorized));
    assert_eq!(refuse_play(true, true, false), Some(Failure::NotFound));
    assert_eq!(refuse_play(true, true, true), None);
    assert!(!sends_frame(WsKind::Flv, true, 5));
    assert!(!sends_frame(WsKind::Ts, false, 0));
    assert!(sends_frame(WsKind::Ts, true, 1));
}

#[test]
fn stream_names_of_routes() {
    assert_eq!(hls_playlist_stream("cam/hls.m3u8"), "cam");
    assert_eq!(hls_playlist_stream("cam.m3u8"), "cam");
    assert_eq!(hls_playlist_stream("cam"), "cam");
    assert_eq!(cmaf_playlist_stream("cam.cmav.m3u8"), "cam");
    assert_eq!(cmaf_playlist_stream("cam/hls.cmav.m3u8"), "cam");
    assert_eq!(cmaf_playlist_stream("cam"), "stream");
    let s = hls_segment_request("cam/12.ts").unwrap();
    assert_eq!((s.stream.as_str(), s.index), ("cam", Some(12)));
    assert_eq!(hls_segment_request("cam/x.ts").unwrap().index, None);
    assert_eq!(hls_segment_request("cam/4294967295.ts").unwrap().index, None);
    assert!(hls_segment_request("12.ts").is_none());
    assert_eq!(cmaf_segment_request("cam/seg-3.m4s"), Some(("cam".to_string(), 3)));
    assert_eq!(
        cmaf_segment_request("cam/seg-4294967299.m4s"),
        Some(("cam".to_string(), 3))
    );
    assert_eq!(
        cmaf_segment_request("cam/seg-v0-1.m4s"),
        Some(("cam".to_string(), u32::MAX))
    );
    assert_eq!(cmaf_segment_request("cam/3.m4s"), None);
    assert_eq!(cmaf_init_stream("/live/cam/init.mp4?x").as_deref(), Some("cam"));
    assert_eq!(cmaf_init_stream("/live/cam-v0/init.mp4"), None);
    assert_eq!(dash_init_stream("cam-v0/init.mp4"), "cam");
    assert_eq!(dash_init_stream("cam/init.mp4"), "cam");
    assert_eq!(dash_segment_stream("cam-v0-1.m4s").as_deref(), Some("cam"));
    assert_eq!(dash_segment_stream("cam/seg-1.m4s"), None);
    assert_eq!(find_index(&vec![4, 5, 6], 5), Some(1));
    assert_eq!(find_index(&vec![4], 5), None);
}

#[test]
fn playlists_are_exact() {
    let segments = vec![
        PlaylistSegment { index: 7, duration: "4.000".to_string() },
        PlaylistSegment { index: 8, duration: "3.960".to_string() },
    ];
    assert_eq!(
        hls_playlist("live", "cam", &segments),
        "#EXTM3U\n#EXT-X-VERSION:3\n#EXT-X-TARGETDURATION:4\n#EXT-X-MEDIA-SEQUENCE:7\n\
         #EXTINF:4.000,\n/live/cam/7.ts\n#EXTINF:3.960,\n/live/cam/8.ts\n"
    );
    assert!(hls_playlist("live", "cam", &vec![]).ends_with("#EXT-X-MEDIA-SEQUENCE:0\n"));
    let length = hls_playlist("live", "cam", &segments).len();
    assert!(hls_playlist_response("live", "cam", &segments).contains(&format!(
        "Content-Type: application/vnd.apple.mpegurl\r\nContent-Length: {length}\r\n"
    )));
}

#[test]
fn manifests_name_the_tracks() {
    let tracks = vec![
        TrackInfo::Video(VideoInfo {
            codec: CodecId::H265,
            width: 1280,
            height: 720,
            fps: 25,
            key_frame: false,
        }),
        TrackInfo::Audio(AudioInfo {
            codec: CodecId::Opus,
            sample_rate: 48000,
            channels: 2,
            bits_per_sample: 16,
        }),
    ];
    assert!(check_rates(&tracks));
    let mpd = dash_manifest("live", "cam", &tracks);
    assert!(mpd.contains("hev1.1.6.L93.B0"));
    assert!(mpd.contains("opus"));
    assert!(mpd.contains("/live/cam/init-$RepresentationID$"));
    assert!(mpd.contains("/live/cam/seg-$RepresentationID$-$"));
    let fast = vec![TrackInfo::Audio(AudioInfo {
        codec: CodecId::AAC,
        sample_rate: u32::MAX,
        channels: 2,
        bits_per_sample: 16,
    })];
    assert!(!check_rates(&fast));
}

#[test]
fn units_get_start_codes() {
    assert_eq!(
        h264_to_annexb(&[0, 0, 0, 2, 0x65, 1, 0, 0, 0, 1, 0x68]),
        vec![0, 0, 0, 1, 0x65, 1, 0, 0, 0, 1, 0x68]
    );
    let already = vec![0, 0, 0, 1, 0x65, 1];
    assert_eq!(h264_to_annexb(&already), already);
    assert_eq!(h264_to_annexb(&[0, 0, 0, 9, 1]), Vec::<u8>::new());
    assert_eq!(h264_to_annexb(&[0, 0]), Vec::<u8>::new());
}

#[test]
fn pictures_need_a_key_frame() {
    let mut config = MediaFrame::new_video(0, CodecId::H264, 0, 0, 0, vec![0, 0, 0, 1, 0x67], false);
    config.config_frame = true;
    let key = MediaFrame::new_video(0, CodecId::H264, 0, 0, 0, vec![0, 0, 0, 1, 0x65], true);
    assert_eq!(
        snapshot_units(&vec![config.clone()], &vec![key.clone()]),
        Some(vec![0, 0, 0, 1, 0x67, 0, 0, 0, 1, 0x65])
    );
    assert_eq!(snapshot_units(&vec![config], &vec![]), None);
    assert_eq!(snapshot_units(&vec![], &vec![key]), None);
    assert_eq!(snapshot_file("v", "a", "s", 42), "zlm_snap_v_a_s_42.h264");
    assert!(refuse_snapshot(SnapProgress::Ran { success: true, size: 9 }).is_none());
    assert!(refuse_snapshot(SnapProgress::Ran { success: true, size: 0 }).is_some());
    assert!(refuse_snapshot(SnapProgress::NotRun).is_some());
    assert!(refuse_snapshot(SnapProgress::NoStream).is_some());
    assert!(refuse_snapshot(SnapProgress::NoKeyFrame).is_some());
}

#[test]
fn recordings_are_played_as_flv() {
    let track = |handler, codec| DemuxedTrack {
        track_id: 1,
        handler,
        codec,
        timescale: 1000,
        duration: 1000,
        config: vec![],
        sample_count: 1,
        width: 640,
        height: 360,
        fps: 25,
        sample_rate: 44100,
    };
    let tracks = vec![
        track(TrackKind::Audio, CodecId::AAC),
        track(TrackKind::Video, CodecId::H264),
    ];
    let meta = vod_metadata(&tracks).unwrap();
    assert_eq!((meta.width, meta.height, meta.fps, meta.audio_sample_rate), (640, 360, 25, 44100));
    assert_eq!(meta.video_codec, CodecId::H264);
    assert!(vod_metadata(&tracks[..1]).is_none());
    let mut frame = MediaFrame::new_video(0, CodecId::H264, 500, 500, 500, vec![], true);
    assert_eq!(vod_action(&frame, None), VodAction::SendInTime);
    assert_eq!(vod_action(&frame, Some(500)), VodAction::SendInTime);
    assert_eq!(vod_action(&frame, Some(499)), VodAction::Stop);
    frame.config_frame = true;
    assert_eq!(vod_action(&frame, Some(1)), VodAction::SendNow);
}

#[test]
fn start_page_names_the_port() {
    let page = build_dashboard_html(8080);
    assert!(page.starts_with("<!DOCTYPE html>"));
    assert!(page.ends_with("</html>"));
    assert_eq!(page.matches(":8080/").count(), 7);
    assert!(!page.contains("{{"));
    assert!(dashboard_response(80).contains("Content-Type: text/html\r\n"));
}
