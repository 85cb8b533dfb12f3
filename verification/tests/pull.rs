use zlmediakit::http::body::{collect, BodyReader, BodyStep};
use zlmediakit::http::pull::{
    playlist_entries, pull_kind, register_track, HlsPull, PullKind, MAX_SEEN,
};
use zlmediakit::http::upstream::{
    act_on_response, find_bytes, head_progress, may_redirect, parse_head, request_text_for,
    HeadProgress, ResponseAction, UpstreamError,
};
use zlmediakit::http::url::{url_error_text, HttpUrl, Scheme, UrlError};
use zlmediakit::media::{CodecId, MediaFrame, TrackInfo};

#[test]
fn resolves_hls_relative_paths() {
    let base = HttpUrl::parse("http://127.0.0.1:8080/live/sub/index.m3u8?x=1").unwrap();
    assert_eq!(
        base.resolve("../seg/001.ts?token=a"),
        "http://127.0.0.1:8080/live/seg/001.ts?token=a"
    );
    assert_eq!(
        base.resolve("/root/master.m3u8"),
        "http://127.0.0.1:8080/root/master.m3u8"
    );
}

#[test]
fn addresses_are_parsed() {
    let u = HttpUrl::parse("https://host/a?b").unwrap();
    assert_eq!(u.scheme, Scheme::Https);
    assert_eq!((u.host.as_str(), u.port, u.path.as_str()), ("host", 443, "/a?b"));
    let u = HttpUrl::parse("http://host:81").unwrap();
    assert_eq!((u.host.as_str(), u.port, u.path.as_str()), ("host", 81, "/"));
    assert_eq!(u.as_url(), "http://host:81/");
    let u = HttpUrl::parse("http://[::1]:82/x").unwrap();
    assert_eq!((u.host.as_str(), u.authority.as_str(), u.port), ("::1", "[::1]:82", 82));
    let u = HttpUrl::parse("http://[::1]/x").unwrap();
    assert_eq!(u.port, 80);
    let u = HttpUrl::parse("http://a:b:c/x").unwrap();
    assert_eq!((u.host.as_str(), u.port), ("a:b:c", 80));
    let again = HttpUrl::parse(&u.as_url()).unwrap();
    assert_eq!((again.host, again.path), (u.host, u.path));
}

#[test]
fn bad_addresses_say_why() {
    assert!(matches!(HttpUrl::parse("rtmp://x/"), Err(UrlError::Scheme)));
    assert!(matches!(HttpUrl::parse("http:///x"), Err(UrlError::MissingHost)));
    assert!(matches!(HttpUrl::parse("http://[::1/x"), Err(UrlError::Bracket)));
    assert!(matches!(HttpUrl::parse("http://a:99999/x"), Err(UrlError::Port)));
    assert_eq!(url_error_text(UrlError::MissingHost), "HTTP URL is missing a host");
}

#[test]
fn references_keep_the_server() {
    let base = HttpUrl::parse("http://h/a/b/c.m3u8").unwrap();
    assert_eq!(base.resolve("../../../../x.ts"), "http://h/x.ts");
    assert_eq!(base.resolve("./y.ts#part"), "http://h/a/b/y.ts");
    assert_eq!(base.resolve("https://other/z"), "https://other/z");
    assert_eq!(
        request_text_for(&base),
        "GET /a/b/c.m3u8 HTTP/1.1\r\nHost: h\r\nUser-Agent: zlmediakit-rs/0.1\r\n\
         Accept: */*\r\nConnection: close\r\n\r\n"
    );
}

#[test]
fn heads_are_parsed() {
    assert_eq!(find_bytes(b"abcab", b"ab"), Some(0));
    assert_eq!(find_bytes(b"abc", b"x"), None);
    assert_eq!(head_progress(b"HTTP/1.1 200 OK\r\n\r\nbody"), HeadProgress::Complete(15));
    assert_eq!(head_progress(b"HTTP/1.1"), HeadProgress::NeedMore);
    assert_eq!(head_progress(&vec![b'a'; 65536]), HeadProgress::TooLarge);
    let head = parse_head(b"HTTP/1.1 200 OK\r\nContent-TYPE:  video/x-flv \r\nX: 1\r\nX: 2").unwrap();
    assert_eq!(head.status, 200);
    assert_eq!(head.headers.get("content-type").as_deref(), Some("video/x-flv"));
    assert_eq!(head.headers.get("x").as_deref(), Some("2"));
    assert!(matches!(parse_head(b"HTTP/1.1"), Err(UpstreamError::StatusLine)));
    assert!(matches!(parse_head(b"HTTP/1.1 abc"), Err(UpstreamError::StatusLine)));
    assert!(matches!(parse_head(b"HTTP/1.1 200 \xff"), Err(UpstreamError::NotText)));
}

#[test]
fn responses_are_acted_on() {
    let base = HttpUrl::parse("http://h/a/b").unwrap();
    let act = |bytes: &[u8]| act_on_response(&base, &parse_head(bytes).unwrap());
    match act(b"HTTP/1.1 302 Found\r\nLocation: c").unwrap() {
        ResponseAction::Redirect(url) => assert_eq!(url, "http://h/a/c"),
        _ => panic!("not redirected"),
    }
    match act(b"HTTP/1.1 200 OK\r\nTransfer-Encoding: Chunked").unwrap() {
        ResponseAction::Accept { chunked, length } => {
            assert!(chunked);
            assert_eq!(length, None);
        }
        _ => panic!("not accepted"),
    }
    match act(b"HTTP/1.1 206 OK\r\nContent-Length: 7").unwrap() {
        ResponseAction::Accept { chunked, length } => {
            assert!(!chunked);
            assert_eq!(length, Some(7));
        }
        _ => panic!("not accepted"),
    }
    assert!(matches!(act(b"HTTP/1.1 301 x"), Err(UpstreamError::MissingLocation)));
    assert!(matches!(act(b"HTTP/1.1 404 x"), Err(UpstreamError::Status(404))));
    assert!(matches!(
        act(b"HTTP/1.1 200 x\r\nContent-Length: y"),
        Err(UpstreamError::ContentLength)
    ));
    assert!(may_redirect(4).is_ok());
    assert!(matches!(may_redirect(5), Err(UpstreamError::TooManyRedirects)));
}

fn data(step: BodyStep) -> Vec<u8> {
    match step {
        BodyStep::Data(d) => d,
        _ => panic!("no data"),
    }
}

#[test]
fn chunks_are_taken_apart() {
    let mut body = BodyReader::new(b"5;x=1\r\nhel".to_vec(), true, None);
    assert!(matches!(body.next(), Ok(BodyStep::NeedMore)));
    body.feed(b"lo\r\n0\r\n\r\n");
    assert_eq!(data(body.next().unwrap()), b"hello");
    assert!(matches!(body.next(), Ok(BodyStep::Finished)));
    assert!(matches!(body.next(), Ok(BodyStep::Finished)));
    assert!(body.end().is_ok());
}

#[test]
fn read_boundaries_do_not_matter() {
    let wire = b"3\r\nabc\r\n2\r\nde\r\n0\r\n\r\n";
    for first in 0..wire.len() {
        let mut body = BodyReader::new(wire[..first].to_vec(), true, None);
        let mut rest = wire[first..].to_vec();
        let mut parts: Vec<Vec<u8>> = Vec::new();
        loop {
            match body.next().unwrap() {
                BodyStep::Data(d) => parts.push(d),
                BodyStep::Finished => break,
                BodyStep::NeedMore => {
                    let byte = rest.remove(0);
                    body.feed(&[byte]);
                }
            }
        }
        assert_eq!(parts, vec![b"abc".to_vec(), b"de".to_vec()]);
    }
}

#[test]
fn broken_chunks_are_errors() {
    let mut size = BodyReader::new(b"zz\r\n".to_vec(), true, None);
    assert!(matches!(size.next(), Err(UpstreamError::ChunkSize)));
    let mut text = BodyReader::new(b"\xff\r\n".to_vec(), true, None);
    assert!(matches!(text.next(), Err(UpstreamError::NotText)));
    let mut end = BodyReader::new(b"1\r\naXY".to_vec(), true, None);
    assert!(matches!(end.next(), Err(UpstreamError::ChunkTerminator)));
    let mut header = BodyReader::new(b"5".to_vec(), true, None);
    assert!(matches!(header.end(), Err(UpstreamError::ChunkHeaderTruncated)));
    let mut short = BodyReader::new(b"5\r\nab".to_vec(), true, None);
    assert!(matches!(short.end(), Err(UpstreamError::ChunkBodyTruncated)));
    let mut huge = BodyReader::new(b"ffffffffffffffff\r\nab".to_vec(), true, None);
    assert!(matches!(huge.next(), Ok(BodyStep::NeedMore)));
}

#[test]
fn lengths_are_kept() {
    let mut body = BodyReader::new(b"abcdef".to_vec(), false, Some(4));
    assert_eq!(data(body.next().unwrap()), b"abcd");
    assert!(matches!(body.next(), Ok(BodyStep::Finished)));
    let mut open = BodyReader::new(b"ab".to_vec(), false, None);
    assert_eq!(data(open.next().unwrap()), b"ab");
    assert!(matches!(open.next(), Ok(BodyStep::NeedMore)));
    assert!(open.end().is_ok());
    assert!(matches!(open.next(), Ok(BodyStep::Finished)));
    let mut out = vec![1, 2];
    assert!(collect(&mut out, &[3], 3).is_ok());
    assert!(matches!(collect(&mut out, &[4], 3), Err(UpstreamError::BodyTooLarge)));
    assert_eq!(out, vec![1, 2, 3]);
}

#[test]
fn kinds_of_media() {
    assert_eq!(pull_kind("/a.M3U8?x", ""), PullKind::Hls);
    assert_eq!(pull_kind("/a", "application/vnd.apple.mpegURL"), PullKind::Hls);
    assert_eq!(pull_kind("/a.flv", ""), PullKind::Flv);
    assert_eq!(pull_kind("/a", "video/x-flv"), PullKind::Flv);
    assert_eq!(pull_kind("/a.ts", ""), PullKind::Ts);
    assert_eq!(pull_kind("/a", "application/octet-stream"), PullKind::Ts);
    assert_eq!(pull_kind("/a", "text/html"), PullKind::Unsupported);
}

#[test]
fn tracks_are_registered_once() {
    let mut tracks: Vec<TrackInfo> = Vec::new();
    let v = MediaFrame::new_video(0, CodecId::H264, 0, 0, 0, vec![], true);
    let a = MediaFrame::new_audio(1, CodecId::AAC, 0, 0, 0, vec![]);
    for _ in 0..2 {
        register_track(&mut tracks, &v);
        register_track(&mut tracks, &a);
    }
    assert_eq!(tracks.len(), 2);
    match tracks[1] {
        TrackInfo::Audio(info) => assert_eq!(
            (info.sample_rate, info.channels, info.bits_per_sample),
            (44100, 2, 16)
        ),
        _ => panic!("no audio"),
    }
    match tracks[0] {
        TrackInfo::Video(info) => assert!(info.key_frame),
        _ => panic!("no video"),
    }
}

#[test]
fn playlists_are_read() {
    let master = playlist_entries(b"#EXTM3U\n#EXT-X-STREAM-INF:BANDWIDTH=1\nlow.m3u8\n").unwrap();
    assert_eq!(master.variant.as_deref(), Some("low.m3u8"));
    assert!(master.segments.is_empty());
    let media = playlist_entries(
        b"#EXTM3U\n#EXT-X-VERSION:7\n#EXT-X-MAP:URI=\"init.mp4\"\n#EXTINF:1.0,\nsegment.m4s\n#EXT-X-ENDLIST\n",
    )
    .unwrap();
    assert_eq!(media.init_map.as_deref(), Some("init.mp4"));
    assert_eq!(media.segments, vec!["segment.m4s".to_string()]);
    assert!(media.end_list);
    assert!(playlist_entries(b"\xff").is_none());
}

#[test]
fn segments_are_fetched_once() {
    let base = HttpUrl::parse("http://h/live/index.m3u8").unwrap();
    let mut pull = HlsPull::new();
    let first = playlist_entries(b"#EXT-X-MAP:URI=\"init.mp4\"\na.ts\nb.ts\na.ts\n").unwrap();
    let plan = pull.plan(&base, &first);
    assert_eq!(plan.init.as_deref(), Some("http://h/live/init.mp4"));
    assert_eq!(plan.segments, vec!["http://h/live/a.ts", "http://h/live/b.ts"]);
    assert!(!plan.last);
    let second = playlist_entries(b"#EXT-X-MAP:URI=\"init.mp4\"\nb.ts\nc.ts\n#EXT-X-ENDLIST\n").unwrap();
    let plan = pull.plan(&base, &second);
    assert_eq!(plan.init, None);
    assert_eq!(plan.segments, vec!["http://h/live/c.ts"]);
    assert!(plan.last);
    let master = playlist_entries(b"#EXT-X-STREAM-INF:x\nv/low.m3u8\n").unwrap();
    assert_eq!(
        pull.plan(&base, &master).variant.as_deref(),
        Some("http://h/live/v/low.m3u8")
    );
}

#[test]
fn many_segments_are_forgotten() {
    let base = HttpUrl::parse("http://h/x").unwrap();
    let mut text = String::new();
    for i in 0..(MAX_SEEN + 1) {
        text.push_str(&format!("{i}.ts\n"));
    }
    let entries = playlist_entries(text.as_bytes()).unwrap();
    let mut pull = HlsPull::new();
    assert_eq!(pull.plan(&base, &entries).segments.len(), MAX_SEEN + 1);
    let again = playlist_entries(b"0.ts\n").unwrap();
    assert_eq!(pull.plan(&base, &again).segments.len(), 1);
}
