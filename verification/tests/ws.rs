use zlmediakit::http::ws::{compute_accept_key, switching_response, upgrade_response, WsFrame};
use zlmediakit::http::ws_session::{
    parse_path_sign, play_target, refuse, step, stream_name, WsEvent, WsKind,
};

#[test]
fn accept_key_known_input() {
    let key = "dGhlIHNhbXBsZSBub25jZQ==";
    let accept = compute_accept_key(key);
    assert_eq!(accept, "s3pPLMBiTxaQ9kYGzzhZRbK+xOo=");
}

#[test]
fn upgrade_response_contains_101() {
    let resp = upgrade_response("test-key");
    assert!(resp.starts_with("HTTP/1.1 101"));
    assert!(resp.contains("Upgrade: websocket"));
    assert!(resp.contains("Sec-WebSocket-Accept:"));
}

#[test]
fn switching_response_is_exact() {
    assert_eq!(
        switching_response("abc="),
        "HTTP/1.1 101 Switching Protocols\r\nUpgrade: websocket\r\nConnection: Upgrade\r\n\
         Sec-WebSocket-Accept: abc=\r\n\r\n"
    );
    assert_eq!(
        upgrade_response("dGhlIHNhbXBsZSBub25jZQ=="),
        switching_response("s3pPLMBiTxaQ9kYGzzhZRbK+xOo=")
    );
}

#[test]
fn encode_binary_frame() {
    let frame = WsFrame::binary(vec![0x01, 0x02, 0x03]);
    let encoded = frame.encode_server();
    assert_eq!(encoded, vec![0x82, 0x03, 0x01, 0x02, 0x03]);
}

#[test]
fn encode_binary_frame_large() {
    let payload = vec![0xABu8; 200];
    let frame = WsFrame::binary(payload.clone());
    let encoded = frame.encode_server();
    assert_eq!(encoded[0], 0x82);
    assert_eq!(encoded[1], 126);
    assert_eq!(u16::from_be_bytes([encoded[2], encoded[3]]), 200);
    assert_eq!(&encoded[4..], &payload[..]);
}

#[test]
fn encode_pong_frame() {
    let frame = WsFrame::pong();
    let encoded = frame.encode_server();
    assert_eq!(encoded, vec![0x8A, 0x00]);
}

#[test]
fn encode_close_frame() {
    let frame = WsFrame::close(1000, "bye");
    let encoded = frame.encode_server();
    assert_eq!(encoded[0], 0x88);
    assert_eq!(encoded[1], 5);
    assert_eq!(&encoded[2..4], &1000u16.to_be_bytes());
    assert_eq!(&encoded[4..], b"bye");
}

#[test]
fn decode_unmasked_frame() {
    let data = vec![0x82, 0x03, 0x01, 0x02, 0x03];
    let (frame, consumed) = WsFrame::decode(&data).unwrap();
    assert_eq!(consumed, 5);
    assert!(frame.fin);
    assert_eq!(frame.opcode, 0x2);
    assert_eq!(frame.payload, vec![0x01, 0x02, 0x03]);
}

#[test]
fn decode_masked_frame() {
    let mut data = vec![0x82, 0x83];
    let mask = [0x37, 0xfa, 0x21, 0x3d];
    data.extend_from_slice(&mask);
    let masked: Vec<u8> = [0x01, 0x02, 0x03]
        .iter()
        .enumerate()
        .map(|(i, &b)| b ^ mask[i % 4])
        .collect();
    data.extend_from_slice(&masked);
    let (frame, consumed) = WsFrame::decode(&data).unwrap();
    assert_eq!(consumed, 9);
    assert_eq!(frame.payload, vec![0x01, 0x02, 0x03]);
}

#[test]
fn decode_short_buffer_returns_none() {
    assert!(WsFrame::decode(b"\x82").is_none());
}

#[test]
fn decode_incomplete_payload_returns_none() {
    let data = vec![0x82, 10, 1, 2, 3, 4, 5];
    assert!(WsFrame::decode(&data).is_none());
}

#[test]
fn encode_decode_roundtrip() {
    let payload = b"Hello, World!".to_vec();
    let frame = WsFrame::binary(payload.clone());
    let encoded = frame.encode_server();
    let (decoded, _) = WsFrame::decode(&encoded).unwrap();
    assert_eq!(decoded.payload, payload);
}

#[test]
fn encode_decode_large_roundtrip() {
    let payload = vec![0x42u8; 50000];
    let frame = WsFrame::binary(payload.clone());
    let encoded = frame.encode_server();
    let (decoded, _) = WsFrame::decode(&encoded).unwrap();
    assert_eq!(decoded.payload, payload);
}

#[test]
fn sixty_four_bit_length_roundtrip() {
    let payload = vec![7u8; 70000];
    let encoded = WsFrame::binary(payload.clone()).encode_server();
    assert_eq!(&encoded[..2], &[0x82, 127]);
    assert_eq!(&encoded[2..10], &70000u64.to_be_bytes());
    let (decoded, used) = WsFrame::decode(&encoded).unwrap();
    assert_eq!(used, encoded.len());
    assert_eq!(decoded.payload, payload);
}

#[test]
fn every_shorter_prefix_waits() {
    let encoded = WsFrame::binary(vec![9u8; 300]).encode_server();
    for n in 0..encoded.len() {
        assert!(WsFrame::decode(&encoded[..n]).is_none());
    }
}

#[test]
fn length_beyond_memory_waits() {
    let data = [0x82u8, 127, 0xff, 0xff, 0xff, 0xff, 0xff, 0xff, 0xff, 0xff, 1, 2];
    assert!(WsFrame::decode(&data).is_none());
}

#[test]
fn parse_path_sign_basic() {
    let (app, resource, sign) = parse_path_sign("/live/stream.flv");
    assert_eq!(app, "live");
    assert_eq!(resource, "stream.flv");
    assert_eq!(sign, "");
}

#[test]
fn parse_path_sign_with_sign() {
    let (app, resource, sign) = parse_path_sign("/live/stream.flv?sign=abc123");
    assert_eq!(app, "live");
    assert_eq!(resource, "stream.flv");
    assert_eq!(sign, "abc123");
}

#[test]
fn parse_path_sign_no_leading_slash() {
    let (app, resource, _) = parse_path_sign("app/stream.flv");
    assert_eq!(app, "app");
    assert_eq!(resource, "stream.flv");
}

#[test]
fn parse_path_sign_sign_with_other_params() {
    let (_, _, sign) = parse_path_sign("/a/b?foo=1&sign=tok&bar=2");
    assert_eq!(sign, "tok");
}

#[test]
fn first_sign_counts() {
    let (app, resource, sign) = parse_path_sign("///a?x&sign=1&sign=2");
    assert_eq!((app.as_str(), resource.as_str(), sign.as_str()), ("a", "", "1"));
}

#[test]
fn play_target_takes_the_suffix_off() {
    assert_eq!(stream_name("cam.flv", ".flv"), "cam");
    assert_eq!(stream_name("cam.mp4", ".flv"), "stream");
    let (app, stream, sign) = play_target(WsKind::Ts, "/live/cam.live.ts?sign=s");
    assert_eq!((app.as_str(), stream.as_str(), sign.as_str()), ("live", "cam", "s"));
    let (_, stream, _) = play_target(WsKind::Fmp4, "/live/cam.live.mp4");
    assert_eq!(stream, "cam");
}

#[test]
fn refusals_close_with_a_reason() {
    let denied = WsFrame::close(3000, "unauthorized").encode_server();
    let missing = WsFrame::close(3004, "stream not found").encode_server();
    assert_eq!(refuse(false, true, true), Some(denied.clone()));
    assert_eq!(refuse(true, false, true), Some(denied));
    assert_eq!(refuse(true, true, false), Some(missing));
    assert_eq!(refuse(true, true, true), None);
}

#[test]
fn session_steps() {
    let sent = step(WsKind::Flv, WsEvent::Media { is_config: false, output: vec![1, 2] });
    assert_eq!(sent.send, Some(vec![0x82, 2, 1, 2]));
    assert!(!sent.stop);
    let config = step(WsKind::Flv, WsEvent::Media { is_config: true, output: vec![1] });
    assert_eq!(config.send, None);
    let nothing = step(WsKind::Ts, WsEvent::Media { is_config: true, output: vec![] });
    assert_eq!(nothing.send, None);
    let pong = step(WsKind::Ts, WsEvent::Client { opcode: 9 });
    assert_eq!((pong.send, pong.stop), (Some(vec![0x8a, 0]), false));
    let bye = step(WsKind::Fmp4, WsEvent::Client { opcode: 8 });
    assert_eq!(bye.send, Some(WsFrame::close(1000, "bye").encode_server()));
    assert!(bye.stop);
    let other = step(WsKind::Fmp4, WsEvent::Client { opcode: 1 });
    assert_eq!((other.send, other.stop), (None, false));
    let gone = step(WsKind::Flv, WsEvent::SourceClosed);
    assert_eq!(gone.send, Some(WsFrame::close(1001, "source gone").encode_server()));
    assert!(gone.stop);
    assert!(!step(WsKind::Flv, WsEvent::Lagged).stop);
    assert!(step(WsKind::Flv, WsEvent::ClientGone).stop);
}
