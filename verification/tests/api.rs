use zlmediakit::http::api::{api_list, decide, find_api, ApiName, ApiStep, Services};
use zlmediakit::http::api_answers::{
    absent, alive_seconds, closed_count, closed_text, codec_name, config_action, failed,
    kicked_text, outcome, record_state, reload_outcome, shown_value, stamp_seconds, transcode_url,
    writes_value, ConfigAction, ConfigAttempt, ConfigReport,
};
use zlmediakit::http::api_params::{
    device_id, device_query, ffmpeg_request, invite_request, kick_target, pull_request, push_request,
    record_period, rtp_connect_request, rtp_port, rtp_send_request, rtp_server_request,
    session_filter, session_listed, session_stream, snap_request, split_addr, stop_rtp_request,
    stop_send_ssrc, stop_talk_channel, stream_filter, stream_senders, talk_request, transcode_key, transcode_request,
    DeviceQuery, KickTarget, RtpSender, StreamName,
};
use zlmediakit::http::query::{
    api_record_types, api_stream_params, constant_time_eq, is_api_authorized, is_secret_config_key,
    parse_query,
};
use zlmediakit::http::server_config::config_report;
use zlmediakit::http::reply::{reply_json, reply_response, Reply};
use zlmediakit::media::CodecId;

const ALL: Services = Services {
    sessions: true,
    transcode: true,
    rtp: true,
    sip: true,
};

const NONE: Services = Services {
    sessions: false,
    transcode: false,
    rtp: false,
    sip: false,
};

fn rejected(path: &str, services: Services) -> (i32, String) {
    match decide(path, services) {
        ApiStep::Reject(Reply::Refused { code, msg }) => (code, msg),
        _ => panic!("not refused: {path}"),
    }
}

fn runs(path: &str, services: Services) -> ApiName {
    match decide(path, services) {
        ApiStep::Run(name) => name,
        _ => panic!("not carried out: {path}"),
    }
}

#[test]
fn queries_keep_the_last_value() {
    let q = parse_query("/x?a=1&b&c=&a=2&d=e=f");
    assert_eq!(q.get("a").as_deref(), Some("2"));
    assert_eq!(q.get("b"), None);
    assert_eq!(q.get("c").as_deref(), Some(""));
    assert_eq!(q.get("d").as_deref(), Some("e=f"));
    assert_eq!(q.get_or("z", "other"), "other");
    assert!(q.says("a", "2"));
    assert_eq!(q.entries().len(), 3);
    assert_eq!(parse_query("/x").entries().len(), 0);
}

#[test]
fn streams_have_defaults() {
    let (v, a, s) = api_stream_params("/x?stream=cam");
    assert_eq!((v.as_str(), a.as_str(), s.as_str()), ("__defaultVhost__", "live", "cam"));
    let (v, a, s) = api_stream_params("/x?vhost=h&app=b");
    assert_eq!((v.as_str(), a.as_str(), s.as_str()), ("h", "b", ""));
}

#[test]
fn record_types_are_chosen() {
    assert_eq!(api_record_types("/x"), (true, false, false));
    assert_eq!(api_record_types("/x?type=ALL"), (true, true, true));
    assert_eq!(api_record_types("/x?type=mp4"), (false, false, true));
    assert_eq!(api_record_types("/x?flv=1"), (false, true, false));
    assert_eq!(api_record_types("/x?flv=true"), (true, false, false));
}

#[test]
fn secrets_admit() {
    assert!(is_api_authorized("", "/x", ""));
    assert!(is_api_authorized("s", "/x?secret=s", "GET /x"));
    assert!(is_api_authorized("s", "/x", "GET /x\r\nX-Api-Secret: s\r\n"));
    assert!(is_api_authorized("s", "/x", "GET /x\r\nauthorization: Bearer s\r\n"));
    assert!(!is_api_authorized("s", "/x", "GET /x\r\nauthorization: Basic s\r\n"));
    assert!(!is_api_authorized("s", "/x", "GET /x"));
    assert!(!is_api_authorized("s", "/x?secret=s", "GET /x\r\nX-API-Secret: t\r\n"));
    assert!(constant_time_eq("abc", "abc"));
    assert!(!constant_time_eq("abc", "abd"));
    assert!(!constant_time_eq("abc", "ab"));
}

#[test]
fn secrets_are_not_shown() {
    assert!(is_secret_config_key("SECRET"));
    assert!(is_secret_config_key("api.Secret"));
    assert!(!is_secret_config_key("secretive"));
    assert_eq!(shown_value("api.secret", "hidden"), "******");
    assert_eq!(shown_value("api.port", "80"), "80");
}

#[test]
fn http_api_get_api_list() {
    let list = api_list();
    assert_eq!(list.len(), 58);
    for name in ["getMediaList", "getAllSession", "kick_sessions", "close_streams", "version"] {
        assert!(list.iter().any(|v| v == &format!("/index/api/{name}")));
    }
    for path in &list {
        let name: Vec<char> = path.trim_start_matches("/index/api/").chars().collect();
        assert!(find_api(&name).is_some());
    }
    assert!(find_api(&['x']).is_none());
}

#[test]
fn unknown_requests_are_not_found() {
    assert!(matches!(decide("/index/api/nothing", ALL), ApiStep::NotFound));
    assert_eq!(runs("/index/api/getMediaList?x=1", NONE), ApiName::GetMediaList);
    assert_eq!(runs("/index/api//index/api/version", NONE), ApiName::Version);
}

#[test]
fn parts_that_do_not_run_refuse() {
    let cases = [
        ("kick_session", -400, "session manager not available"),
        ("getAllSession", -400, "session manager not available"),
        ("kick_sessions", -400, "session manager not available"),
        ("addTranscode?stream=a", -1, "transcode disabled"),
        ("delTranscode", -1, "transcode disabled"),
        ("getTranscode", -1, "transcode disabled"),
        ("getTranscodeList", -1, "transcode disabled"),
        ("openRtpServer", -1, "rtp server disabled"),
        ("connectRtpServer", -1, "rtp server disabled"),
        ("closeRtpServer", -1, "rtp server disabled"),
        ("stopRtp", -1, "rtp server disabled"),
        ("startRtp", -1, "gb28181 disabled"),
        ("startTalk", -1, "gb28181 disabled"),
        ("getDeviceList", -1, "gb28181 disabled"),
        ("stopSip", -1, "gb28181 disabled"),
    ];
    for (name, code, msg) in cases {
        let path = format!("/index/api/{name}");
        assert_eq!(rejected(&path, NONE), (code, msg.to_string()));
    }
}

#[test]
fn missing_parameters_are_refused() {
    let cases = [
        ("kick_session", -400, "missing id or stream param"),
        ("getMediaInfo", -400, "missing stream param"),
        ("isMediaOnline?stream=", -400, "missing stream param"),
        ("getSnap?stream=.jpeg", -400, "missing stream param"),
        ("addTranscode", -400, "missing stream"),
        ("addStreamPusher?stream=a", -400, "missing dst_url or stream param"),
        ("addFFmpegSource?src_url=a", -400, "missing src_url or dst_url param"),
        ("addStreamProxy?stream=a", -400, "missing url or stream param"),
        (
            "connectRtpServer?stream=a&dst_url=b&dst_port=0",
            -300,
            "stream_id, dst_url and dst_port are required",
        ),
        (
            "startSendRtp?stream=a&ssrc=1&dst_url=b",
            -300,
            "stream, ssrc, dst_url and dst_port are required",
        ),
        ("startSendRtpPassive?stream=a&ssrc=x", -300, "stream and ssrc are required"),
        ("listRtpSender", -300, "stream is required"),
        ("stopSendRtp", -300, "stream is required"),
        (
            "startTalk?device_id=a&stream=b",
            -300,
            "device_id, channel_id and stream are required",
        ),
    ];
    for (name, code, msg) in cases {
        let path = format!("/index/api/{name}");
        assert_eq!(rejected(&path, ALL), (code, msg.to_string()));
    }
    assert_eq!(runs("/index/api/kick_session?id=1", ALL), ApiName::KickSession);
    assert_eq!(
        runs("/index/api/startSendRtpPassive?stream=a&ssrc=0x10", ALL),
        ApiName::StartSendRtpPassive
    );
}

#[test]
fn replies_are_json() {
    let refused = rejected("/index/api/getMediaInfo", ALL);
    let reply = Reply::Refused { code: refused.0, msg: refused.1 };
    assert_eq!(
        reply_json(&reply),
        "{\n  \"code\": -400,\n  \"msg\": \"missing stream param\"\n}"
    );
    assert_eq!(
        reply_json(&outcome(ApiName::CloseStream, true)),
        "{\n  \"code\": 0,\n  \"result\": \"stream closed\"\n}"
    );
    assert_eq!(
        reply_json(&failed(false, "a \"b\"\n")),
        "{\n  \"code\": -1,\n  \"msg\": \"a \\\"b\\\"\\n\"\n}"
    );
    assert!(reply_response(&outcome(ApiName::StopRecord, false))
        .ends_with("{\n  \"code\": 0,\n  \"result\": \"record stopped\"\n}"));
    let value: serde_json::Value =
        serde_json::from_str(&reply_json(&absent(ApiName::GetTranscode))).unwrap();
    assert_eq!(value["code"], -404);
    assert_eq!(value["msg"], "not found");
}

#[test]
fn outcomes_have_texts() {
    let cases = [
        (ApiName::CloseStream, "stream closed", -404, "stream not found"),
        (ApiName::StartRecord, "record started", -404, "stream not found"),
        (ApiName::AddStreamPusher, "stream pusher started", -1, "pusher already exists"),
        (ApiName::DelStreamPusher, "stream pusher stopped", -404, "pusher not found"),
        (ApiName::AddFFmpegSource, "ffmpeg source started", -1, "ffmpeg source already exists"),
        (ApiName::DelFFmpegSource, "ffmpeg source stopped", -404, "ffmpeg source not found"),
        (ApiName::AddStreamProxy, "stream proxy started", -1, "proxy already exists"),
        (ApiName::DelStreamProxy, "stream proxy stopped", -404, "proxy not found"),
    ];
    for (name, good, code, bad) in cases {
        assert!(matches!(outcome(name, true), Reply::Done { result } if result == good));
        assert!(matches!(
            outcome(name, false),
            Reply::Refused { code: c, msg } if c == code && msg == bad
        ));
    }
    assert!(matches!(outcome(ApiName::StopSip, true), Reply::Done { result } if result == "sip stopped"));
    assert!(matches!(outcome(ApiName::StopRtp, true), Reply::Done { result } if result == "ok"));
    assert!(matches!(failed(true, "x"), Reply::Refused { code: -300, .. }));
    assert!(reload_outcome(0).is_none());
    assert!(reload_outcome(1).is_some());
    assert_eq!(kicked_text(2), "kicked 2 session(s)");
    assert_eq!(closed_text(0), "closed 0 stream(s)");
    assert_eq!(alive_seconds(-5), 0);
    assert_eq!(alive_seconds(5), 5);
    assert_eq!(transcode_url("v", "a", "s"), "v/a/s");
    assert_eq!(codec_name(CodecId::G711A), "G711A");
    let state = record_state(Some((false, true, false)));
    assert!(state.recording && state.flv && !state.hls && !state.mp4);
    assert!(!record_state(None).recording);
}

#[test]
fn configuration_is_reported() {
    let mut report = ConfigReport::new();
    let changed = ConfigAttempt { hook_accepted: true, hook_changed: false, value_changed: true };
    let refused = ConfigAttempt { hook_accepted: false, hook_changed: false, value_changed: false };
    assert_eq!(config_action("secret", true), ConfigAction::Ignore);
    assert_eq!(config_action("nothing", false), ConfigAction::Reject);
    assert_eq!(config_action("hook.url", true), ConfigAction::SetHook);
    assert_eq!(config_action("api.secret", true), ConfigAction::SetSecret);
    assert_eq!(config_action("api.port", true), ConfigAction::SetValue);
    assert!(!report.record("secret".into(), ConfigAction::Ignore, changed));
    assert!(!report.record("nothing".into(), ConfigAction::Reject, changed));
    assert!(!report.record("hook.url".into(), ConfigAction::SetHook, refused));
    assert!(!report.record("hook.on".into(), ConfigAction::SetHook, changed));
    assert!(report.record("api.secret".into(), ConfigAction::SetSecret, changed));
    assert!(!report.record("api.port".into(), ConfigAction::SetValue, changed));
    assert_eq!(report.changed, 3);
    assert_eq!(report.rejected, vec!["nothing", "hook.url"]);
    assert_eq!(report.restart_required, vec!["api.port"]);
}

#[test]
fn addresses_are_split() {
    assert_eq!(split_addr("1.2.3.4:80"), ("1.2.3.4".to_string(), 80));
    assert_eq!(split_addr("[::1]:80"), ("[::1]".to_string(), 80));
    assert_eq!(split_addr("::1:80"), ("::1".to_string(), 80));
    assert_eq!(split_addr("[::1]"), (String::new(), 0));
    assert_eq!(split_addr("host"), (String::new(), 0));
    assert_eq!(split_addr("host:x"), (String::new(), 0));
    assert_eq!(split_addr(""), (String::new(), 0));
}

#[test]
fn sessions_are_filtered() {
    let f = session_filter("/x?peer_ip=1.2.3.4&local_port=80&typeid=HTTP");
    assert_eq!(f.typeid.as_deref(), Some("HTTP"));
    assert!(session_listed(&f, "1.2.3.4:999", "0.0.0.0:80"));
    assert!(!session_listed(&f, "1.2.3.5:999", "0.0.0.0:80"));
    assert!(!session_listed(&f, "1.2.3.4:999", "0.0.0.0:81"));
    let all = session_filter("/x?local_port=many");
    assert!(session_listed(&all, "", ""));
    assert!(matches!(kick_target("/x?id=7&stream=s"), KickTarget::Session(id) if id == "7"));
    assert!(matches!(kick_target("/x?stream=s"), KickTarget::Stream(s) if s.stream == "s"));
    let name = StreamName { vhost: "v".into(), app: "a".into(), stream: "s".into() };
    assert_eq!(session_stream(&name), "v/a/s");
}

#[test]
fn requests_are_read() {
    assert_eq!(snap_request("/x?stream=cam.jpg.jpeg").stream, "cam");
    assert_eq!(stream_filter("/x?app=a").app.as_deref(), Some("a"));
    assert_eq!(stream_filter("/x?app=a").stream, None);
    assert_eq!(record_period("/x?period=2024-01-01"), "2024-01-01");
    let t = transcode_request("/x?stream=s&code=hevc&scale=640x360x1&bitrate=2M");
    assert_eq!(t.output_codec, "h265");
    assert_eq!(t.scale, Some((640, 360)));
    assert_eq!(t.bitrate.as_deref(), Some("2M"));
    let t = transcode_request("/x?stream=s&code=other&scale=640");
    assert_eq!((t.output_codec.as_str(), t.scale), ("h264", None));
    assert_eq!(transcode_key("/x?key="), None);
    assert_eq!(transcode_key("/x?key=k").as_deref(), Some("k"));
    assert_eq!(push_request("/x?dst_url=u&stream=s").dst_url, "u");
    assert_eq!(pull_request("/x?url=u&stream=s").url, "u");
    let f = ffmpeg_request("/x?src_url=a&dst_url=rtmp://h/live/cam&timeout_ms=5");
    assert_eq!((f.target.stream.as_str(), f.timeout_ms), ("cam", 5));
    assert_eq!(ffmpeg_request("/x?dst_url=cam").timeout_ms, 10000);
    assert_eq!(invite_request("/x?device_id=d&stream=s"), ("d".to_string(), "s".to_string()));
    assert_eq!(stop_rtp_request("/x?channel_id=c"), Some(("gb28181".to_string(), "c".to_string())));
    assert_eq!(stop_rtp_request("/x"), None);
    let t = talk_request("/x?device_id=d&channel_id=c&stream=s");
    assert_eq!((t.device_id.as_str(), t.channel_id.as_str()), ("d", "c"));
    assert_eq!(device_id("/x?device_id=d").as_deref(), Some("d"));
}

#[test]
fn rtp_requests_are_read() {
    let r = rtp_server_request("/x?port=9000&tcp_mode=1&type=PS&ssrc=77");
    assert_eq!((r.port, r.tcp_mode, r.ssrc), (9000, 1, Some(77)));
    assert_eq!((r.app.as_str(), r.stream.as_str()), ("rtp", "rtp_9000"));
    assert_eq!(r.payload.as_deref(), Some("PS"));
    assert_eq!(rtp_server_request("/x?stream_id=a&stream=b").stream, "a");
    assert_eq!(rtp_port("/x?port=70000"), 0);
    let c = rtp_connect_request("/x?stream=s&dst_url=h&dst_port=5");
    assert_eq!((c.stream.as_str(), c.dst_host.as_str(), c.dst_port), ("s", "h", 5));
    let s = rtp_send_request("/x?stream=s&ssrc=0XfF&dst_url=h&dst_port=5", false).unwrap();
    assert_eq!((s.ssrc, s.dst_port, s.payload_type, s.data_type), (255, 5, 96, 1));
    assert!(s.is_udp && !s.only_audio && !s.passive);
    let p = rtp_send_request("/x?ssrc=1&use_ps=0&only_audio=TRUE", true).unwrap();
    assert_eq!(p.data_type, 0);
    assert!(!p.is_udp && p.only_audio && p.passive);
    assert!(rtp_send_request("/x?ssrc=0xg", true).is_none());
    assert_eq!(stop_send_ssrc("/x?ssrc=9"), Some(9));
}

#[test]
fn senders_of_a_stream() {
    let sender = |stream: &str, bytes: u64| RtpSender {
        source: StreamName {
            vhost: "__defaultVhost__".into(),
            app: "live".into(),
            stream: stream.into(),
        },
        ssrc: 1,
        bytes,
    };
    let all = vec![sender("a", 5), sender("b", 7), sender("a", 6)];
    assert_eq!(stream_senders("/x?stream=a", &all), Some((vec![0, 2], 11)));
    assert_eq!(stream_senders("/x?stream=c", &all), Some((vec![], 0)));
    let many = vec![sender("a", u64::MAX), sender("a", 1)];
    assert_eq!(stream_senders("/x?stream=a", &many), None);
}

#[test]
fn configuration_answer_hides_secrets() {
    let config = |secret: &str, hook: &str| {
        vec![
            ("api.secret".to_string(), secret.to_string()),
            ("api.port".to_string(), "8081".to_string()),
            ("hook.Secret".to_string(), hook.to_string()),
            ("record.path".to_string(), "rec".to_string()),
        ]
    };
    let a = config_report(&config("one", "two"), "one");
    assert_eq!(a.entries[0], ("api.secret".to_string(), "******".to_string()));
    assert_eq!(a.entries[1], ("api.port".to_string(), "8081".to_string()));
    assert_eq!(a.entries[2].1, "******");
    assert_eq!((a.secret.as_str(), a.secret_configured), ("******", true));
    assert_eq!((a.api_port.as_str(), a.record_path.as_str()), ("8081", "rec"));
    assert_eq!(a.rtmp_port, "");
    let b = config_report(&config("three", "four"), "three");
    assert_eq!(a.entries, b.entries);
    assert_eq!((a.secret, a.secret_configured), (b.secret, b.secret_configured));
    assert!(!config_report(&vec![], "").secret_configured);
}

#[test]
fn small_answers() {
    assert_eq!(stamp_seconds(1999), 1);
    assert_eq!(stamp_seconds(-1), -1);
    assert_eq!(stamp_seconds(-1000), -1);
    assert_eq!(stamp_seconds(-1001), -2);
    assert_eq!(stamp_seconds(i64::MIN), i64::MIN.div_euclid(1000));
    assert_eq!(closed_count(&vec![true, false, true]), 2);
    assert!(writes_value(ConfigAction::SetValue, false));
    assert!(!writes_value(ConfigAction::SetHook, false));
    assert!(!writes_value(ConfigAction::Reject, true));
    assert_eq!(stop_talk_channel("/x?channel_id="), None);
    assert_eq!(stop_talk_channel("/x?channel_id=c").as_deref(), Some("c"));
    assert!(matches!(device_query("/x"), DeviceQuery::All));
    assert!(matches!(device_query("/x?device_id=d"), DeviceQuery::One(id) if id == "d"));
}
