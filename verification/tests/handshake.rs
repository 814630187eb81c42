//! The request head and the handshake response.
use pylon::transport::handshake::{
    accept_response, classify_head, connection_contains_upgrade, header_fields_too_large_response,
    header_value_eq_ignore_ascii_case, read_head, trim_ascii, HeadParse, HeadResult, MAX_HEADERS,
};

/// An upgrade with all its headers; the key is the one of RFC 6455.
const WS_UPGRADE: &[u8] = b"GET /app/app-key HTTP/1.1\r\n\
    Host: example.com\r\n\
    Upgrade: websocket\r\n\
    Connection: Upgrade\r\n\
    Sec-WebSocket-Key: dGhlIHNhbXBsZSBub25jZQ==\r\n\
    Sec-WebSocket-Version: 13\r\n\
    \r\n";

/// A cap that no head here reaches.
const DEFAULT_TEST_HEAD_CAP: usize = 1 << 20;

#[test]
fn head_over_the_cap_is_bad_even_when_incomplete() {
    let dribble = vec![b'x'; 1025];
    assert_eq!(
        read_head(&dribble, 1024),
        HeadResult::Bad("request head too large")
    );
    // Exactly AT the cap is still fine (the cap is exclusive: `>`).
    assert_eq!(read_head(&dribble[..1024], 1024), HeadResult::NeedMore);
}

#[test]
fn head_cap_zero_disables_the_limit() {
    let dribble = vec![b'x'; 64 * 1024];
    assert_eq!(read_head(&dribble, 0), HeadResult::NeedMore);
}

#[test]
fn real_upgrade_parses_under_a_tight_cap() {
    assert_eq!(
        read_head(WS_UPGRADE, WS_UPGRADE.len()),
        HeadResult::WsUpgrade {
            key: "dGhlIHNhbXBsZSBub25jZQ==".to_owned(),
            path: "/app/app-key".to_owned(),
        }
    );
}

#[test]
fn large_rest_body_after_a_small_head_is_not_capped() {
    let head = b"POST /apps/app/events HTTP/1.1\r\nHost: x\r\nContent-Length: 204800\r\n\r\n";
    let mut buf = head.to_vec();
    buf.extend_from_slice(vec![b'x'; 200 * 1024].as_slice());
    assert_eq!(
        read_head(&buf, 1024),
        HeadResult::Rest {
            consumed: head.len()
        }
    );
}

#[test]
fn giant_complete_head_beyond_the_cap_is_bad() {
    // A syntactically fine head: start line + one header with a huge value,
    // terminator just past the 1024-byte cap.
    let mut buf = b"POST /apps/app/events HTTP/1.1\r\nX-Pad: ".to_vec();
    buf.extend(vec![b'x'; 1100]);
    buf.extend_from_slice(b"\r\n\r\n");
    assert_eq!(
        read_head(&buf, 1024),
        HeadResult::Bad("request head too large")
    );
}

#[test]
fn accept_response_rfc6455_kat() {
    let resp = accept_response("dGhlIHNhbXBsZSBub25jZQ==");
    let text = std::str::from_utf8(&resp).unwrap();
    assert!(
        text.contains("Sec-WebSocket-Accept: s3pPLMBiTxaQ9kYGzzhZRbK+xOo=\r\n"),
        "response did not contain the canonical RFC 6455 accept value:\n{text}"
    );
}

#[test]
fn parses_ws_upgrade() {
    assert_eq!(
        read_head(WS_UPGRADE, DEFAULT_TEST_HEAD_CAP),
        HeadResult::WsUpgrade {
            key: "dGhlIHNhbXBsZSBub25jZQ==".to_owned(),
            path: "/app/app-key".to_owned(),
        }
    );
}

#[test]
fn parses_rest_request() {
    let req = b"POST /apps/app/events HTTP/1.1\r\nHost: x\r\nContent-Length: 0\r\n\r\n";
    assert_eq!(
        read_head(req, DEFAULT_TEST_HEAD_CAP),
        HeadResult::Rest {
            consumed: req.len()
        }
    );
}

#[test]
fn ws_upgrade_off_app_path_still_upgrades() {
    let req = b"GET /nope/?protocol=7 HTTP/1.1\r\n\
        Host: example.com\r\n\
        Upgrade: websocket\r\n\
        Connection: Upgrade\r\n\
        Sec-WebSocket-Key: dGhlIHNhbXBsZSBub25jZQ==\r\n\
        Sec-WebSocket-Version: 13\r\n\
        \r\n";
    assert_eq!(
        read_head(req, DEFAULT_TEST_HEAD_CAP),
        HeadResult::WsUpgrade {
            key: "dGhlIHNhbXBsZSBub25jZQ==".to_owned(),
            path: "/nope/?protocol=7".to_owned(),
        }
    );
}

#[test]
fn plain_get_off_app_path_is_rest() {
    let req = b"GET /metrics HTTP/1.1\r\nHost: x\r\n\r\n";
    assert_eq!(
        read_head(req, DEFAULT_TEST_HEAD_CAP),
        HeadResult::Rest {
            consumed: req.len()
        }
    );
}

#[test]
fn incomplete_head_needs_more() {
    // Drop the terminating CRLFCRLF (and the last header is incomplete).
    let truncated = b"GET /app/app-key HTTP/1.1\r\n\
        Host: example.com\r\n\
        Upgrade: websocket\r\n\
        Connection: Upgrade\r\n";
    assert_eq!(
        read_head(truncated, DEFAULT_TEST_HEAD_CAP),
        HeadResult::NeedMore
    );
}

#[test]
fn missing_ws_key_is_bad() {
    let req = b"GET /app/app-key HTTP/1.1\r\n\
        Host: example.com\r\n\
        Upgrade: websocket\r\n\
        Connection: Upgrade\r\n\
        Sec-WebSocket-Version: 13\r\n\
        \r\n";
    assert_eq!(
        read_head(req, DEFAULT_TEST_HEAD_CAP),
        HeadResult::Bad("invalid websocket upgrade")
    );
}

#[test]
fn case_insensitive_headers_parse() {
    let req = b"GET /app/app-key HTTP/1.1\r\n\
        Host: example.com\r\n\
        upgrade: WebSocket\r\n\
        connection: keep-alive, Upgrade\r\n\
        Sec-WebSocket-Key: dGhlIHNhbXBsZSBub25jZQ==\r\n\
        Sec-WebSocket-Version: 13\r\n\
        \r\n";
    assert_eq!(
        read_head(req, DEFAULT_TEST_HEAD_CAP),
        HeadResult::WsUpgrade {
            key: "dGhlIHNhbXBsZSBub25jZQ==".to_owned(),
            path: "/app/app-key".to_owned(),
        }
    );
}

#[test]
fn response_shape_is_well_formed() {
    let resp = accept_response("dGhlIHNhbXBsZSBub25jZQ==");
    let text = std::str::from_utf8(&resp).unwrap();
    assert!(
        text.starts_with("HTTP/1.1 101 Switching Protocols\r\n"),
        "bad start line:\n{text}"
    );
    assert!(text.ends_with("\r\n\r\n"), "bad terminator:\n{text}");
}

#[test]
fn a_head_with_too_many_fields_is_told_apart() {
    let mut head = b"GET / HTTP/1.1\r\n".to_vec();
    for i in 0..=MAX_HEADERS {
        head.extend_from_slice(format!("x-{i}: 1\r\n").as_bytes());
    }
    head.extend_from_slice(b"\r\n");
    assert_eq!(
        read_head(&head, DEFAULT_TEST_HEAD_CAP),
        HeadResult::TooManyHeaders
    );
    let answer = header_fields_too_large_response();
    let text = std::str::from_utf8(&answer).unwrap();
    assert!(text.starts_with("HTTP/1.1 431 Request Header Fields Too Large\r\n"));
    let (head, body) = text.split_once("\r\n\r\n").unwrap();
    assert!(head.contains(&format!("Content-Length: {}", body.len())));
}

#[test]
fn what_is_no_request_is_bad() {
    assert_eq!(
        read_head(b"\x00\x01\r\n\r\n", DEFAULT_TEST_HEAD_CAP),
        HeadResult::Bad("malformed http request")
    );
    assert_eq!(
        classify_head(HeadParse::Malformed),
        HeadResult::Bad("malformed http request")
    );
}

#[test]
fn a_wrong_version_is_a_bad_upgrade() {
    let req = b"GET /app/app-key HTTP/1.1\r\n\
        Upgrade: websocket\r\n\
        Connection: Upgrade\r\n\
        Sec-WebSocket-Key: dGhlIHNhbXBsZSBub25jZQ==\r\n\
        Sec-WebSocket-Version: 12\r\n\
        \r\n";
    assert_eq!(
        read_head(req, DEFAULT_TEST_HEAD_CAP),
        HeadResult::Bad("invalid websocket upgrade")
    );
}

#[test]
fn header_values_are_compared_without_case_and_surrounding_space() {
    assert!(header_value_eq_ignore_ascii_case(b"  WebSocket\t", b"websocket"));
    assert!(!header_value_eq_ignore_ascii_case(b"websockets", b"websocket"));
    assert!(connection_contains_upgrade(b"keep-alive ,  UPGRADE"));
    assert!(!connection_contains_upgrade(b"keep-alive, upgraded"));
    assert!(!connection_contains_upgrade(b"\xff, upgrade"));
    assert_eq!(trim_ascii(b" \r\n a b\t "), b"a b");
    assert_eq!(trim_ascii(b"   "), b"");
}
