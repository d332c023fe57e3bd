use paseo_relay_rust::config::{
    parse_bool_setting, parse_millis_setting, parse_usize_setting, resolve_settings, RawSettings,
    RelayLimitsConfig, RelayTimingConfig,
};
use paseo_relay_rust::ingress::{InboundEvent, InboundMessage, IngressAction, RateWindow};
use paseo_relay_rust::json::{connected_message, disconnected_message, sync_message, text_is_ping};
use paseo_relay_rust::peer::generate_connection_id;
use paseo_relay_rust::protocol::{validate_params, ConnectionRole, HealthResponse, RawWsParams, RelayVersion};
use paseo_relay_rust::session::{now_ms, OutboundMessage, RelayFrame};
use paseo_relay_rust::text::{parse_unsigned, str_lt, trim, IntErrorKind};

fn raw(server_id: Option<&str>, role: Option<&str>, v: Option<&str>, cid: Option<&str>) -> RawWsParams {
    RawWsParams {
        server_id: server_id.map(|s| s.to_string()),
        role: role.map(|s| s.to_string()),
        v: v.map(|s| s.to_string()),
        connection_id: cid.map(|s| s.to_string()),
    }
}

fn close_code(a: &IngressAction) -> u16 {
    match a {
        IngressAction::Reject(OutboundMessage::Close { code, .. }) => *code,
        other => panic!("expected a close, got {other:?}"),
    }
}

#[test]
fn req_001_health_returns_ok() {
    assert_eq!(HealthResponse::ok().status, "ok");
}

#[test]
fn req_003_invalid_version_returns_400() {
    let err = validate_params(raw(Some("s1"), Some("server"), Some("3"), None)).unwrap_err();
    assert_eq!(err.status, 400);
    assert_eq!(err.message, "Invalid v parameter (expected 1 or 2)");
}

#[test]
fn validation_errors_and_trimming() {
    let err = validate_params(raw(None, Some("server"), None, None)).unwrap_err();
    assert_eq!((err.status, err.message), (400, "Missing serverId parameter"));
    let err = validate_params(raw(Some("   "), Some("server"), None, None)).unwrap_err();
    assert_eq!(err.message, "Missing serverId parameter");
    let err = validate_params(raw(Some("s"), Some("admin"), None, None)).unwrap_err();
    assert_eq!(err.message, "Missing or invalid role parameter");
    let err = validate_params(raw(Some("s"), None, None, None)).unwrap_err();
    assert_eq!(err.message, "Missing or invalid role parameter");
    let ok = validate_params(raw(Some("  s9 "), Some("client"), Some(" 2 "), Some("  "))).unwrap();
    assert_eq!(ok.server_id, "s9");
    assert_eq!(ok.role, ConnectionRole::Client);
    assert_eq!(ok.version, RelayVersion::V2);
    assert!(ok.connection_id.is_none());
    let ok = validate_params(raw(Some("s"), Some("server"), Some(""), Some(" c1 "))).unwrap();
    assert_eq!(ok.version, RelayVersion::V1);
    assert_eq!(ok.connection_id.as_deref(), Some("c1"));
}

#[test]
fn roles_and_versions_round_trip() {
    for r in [ConnectionRole::Server, ConnectionRole::Client] {
        assert_eq!(ConnectionRole::parse(r.as_str()), Some(r));
    }
    for v in [RelayVersion::V1, RelayVersion::V2] {
        assert_eq!(RelayVersion::parse(Some(v.as_str())), Ok(v));
    }
    assert_eq!(ConnectionRole::parse("Server"), None);
    assert_eq!(RelayVersion::parse(None), Ok(RelayVersion::V1));
}

#[test]
fn trim_follows_unicode_white_space() {
    assert_eq!(trim(" \t a b \n"), "a b");
    assert_eq!(trim("\u{3000}x\u{a0}"), "x");
    assert_eq!(trim("   "), "");
}

#[test]
fn strings_order_by_code_point() {
    assert!(str_lt("abc", "abd"));
    assert!(str_lt("ab", "abc"));
    assert!(!str_lt("b", "abc"));
    assert!(!str_lt("same", "same"));
    assert!(str_lt("Z", "a"));
}

#[test]
fn unsigned_parsing_matches_std() {
    for s in ["0", "42", "+7", "", "+", "-1", "1x", "18446744073709551615", "18446744073709551616", " 1"] {
        let expected = s.parse::<u64>();
        let got = parse_unsigned(s, u64::MAX);
        match (expected, got) {
            (Ok(a), Ok(b)) => assert_eq!(a, b),
            (Err(e), Err(k)) => {
                let want = match e.kind() {
                    std::num::IntErrorKind::Empty => IntErrorKind::Empty,
                    std::num::IntErrorKind::InvalidDigit => IntErrorKind::InvalidDigit,
                    std::num::IntErrorKind::PosOverflow => IntErrorKind::PosOverflow,
                    other => panic!("unexpected kind {other:?}"),
                };
                assert_eq!(want, k, "input {s:?}");
            }
            (a, b) => panic!("mismatch on {s:?}: {a:?} vs {b:?}"),
        }
    }
    assert_eq!(parse_unsigned("256", 255), Err(IntErrorKind::PosOverflow));
}

#[test]
fn settings_parse_and_report_errors() {
    assert_eq!(parse_bool_setting("K", " YES "), Ok(true));
    assert_eq!(parse_bool_setting("K", "off"), Ok(false));
    assert_eq!(
        parse_bool_setting("K", "maybe"),
        Err("K must be a boolean (true/false, 1/0, yes/no, on/off)".to_string())
    );
    assert_eq!(parse_usize_setting("K", "12"), Ok(12));
    assert_eq!(
        parse_usize_setting("K", "x"),
        Err("K must be a positive integer: invalid digit found in string".to_string())
    );
    assert_eq!(
        parse_usize_setting("K", ""),
        Err("K must be a positive integer: cannot parse integer from empty string".to_string())
    );
    assert_eq!(
        parse_millis_setting("K", "99999999999999999999"),
        Err("K must be milliseconds as u64: number too large to fit in target type".to_string())
    );
}

#[test]
fn settings_defaults_and_first_error() {
    let s = resolve_settings(RawSettings::default()).unwrap();
    assert_eq!(s.log_filter, "info");
    assert!(!s.diagnostics);
    assert_eq!(s.timings.initial_nudge_delay_ms, 10_000);
    assert_eq!(s.timings.second_nudge_delay_ms, 5_000);
    assert_eq!(s.limits.max_frame_bytes, 65536);
    assert_eq!(s.limits.max_clients_per_connection, 8);
    assert_eq!(s.limits.max_sockets_per_session, 64);
    assert_eq!(s.limits.max_outbound_queue_messages, 256);
    assert_eq!(s.limits.idle_timeout_ms, 120_000);
    assert_eq!(s.limits.max_messages_per_window, 240);
    assert_eq!(s.limits.rate_limit_window_ms, 10_000);
    let d = RelayLimitsConfig::default();
    assert_eq!(d.max_frame_bytes, 64 * 1024);
    assert_eq!(RelayTimingConfig::default().initial_nudge_delay_ms, 10_000);

    let raw = RawSettings {
        max_frame_bytes: Some("bad".to_string()),
        idle_timeout_ms: Some("also bad".to_string()),
        log: Some("debug".to_string()),
        ..RawSettings::default()
    };
    let err = resolve_settings(raw).unwrap_err();
    assert_eq!(err, "RELAY_MAX_FRAME_BYTES must be a positive integer: invalid digit found in string");

    let raw = RawSettings { log: Some("debug".to_string()), diagnostics: Some("on".to_string()), ..RawSettings::default() };
    let s = resolve_settings(raw).unwrap();
    assert_eq!(s.log_filter, "debug");
    assert!(s.diagnostics);
}

#[test]
fn control_messages_are_json() {
    assert_eq!(
        sync_message(&vec!["a".to_string(), "b".to_string()]),
        "{\"connectionIds\":[\"a\",\"b\"],\"type\":\"sync\"}"
    );
    assert_eq!(sync_message(&vec![]), "{\"connectionIds\":[],\"type\":\"sync\"}");
    assert_eq!(connected_message("c\"1"), "{\"connectionId\":\"c\\\"1\",\"type\":\"connected\"}");
    assert_eq!(disconnected_message("x"), "{\"connectionId\":\"x\",\"type\":\"disconnected\"}");
}

#[test]
fn ping_detection() {
    assert!(text_is_ping("{\"type\":\"ping\"}"));
    assert!(text_is_ping(" {\"ts\": 1, \"type\": \"ping\"} "));
    assert!(!text_is_ping("{\"type\":\"pong\"}"));
    assert!(!text_is_ping("{\"type\":1}"));
    assert!(!text_is_ping("ping"));
    assert!(!text_is_ping("[\"ping\"]"));
}

#[test]
fn generated_connection_ids_have_uuid_shape() {
    let a = generate_connection_id();
    let b = generate_connection_id();
    assert_eq!(a.len(), 37);
    assert!(a.starts_with("conn_"));
    assert!(a[5..].chars().all(|c| c.is_ascii_hexdigit() && !c.is_ascii_uppercase()));
    assert_ne!(a, b);
}

#[test]
fn clock_is_after_epoch() {
    assert!(now_ms() > 1_600_000_000_000);
}

#[test]
fn req_015_rejects_oversized_frames() {
    let limits = RelayLimitsConfig { max_frame_bytes: 8, ..RelayLimitsConfig::default() };
    let mut w = RateWindow::new(0);
    let a = w.on_event(1, InboundEvent::Message(InboundMessage::Text("0123456789".to_string())), &limits);
    assert_eq!(close_code(&a), 1009);
    let a = w.on_event(2, InboundEvent::Message(InboundMessage::Binary(vec![0; 9])), &limits);
    assert_eq!(close_code(&a), 1009);
    let a = w.on_event(3, InboundEvent::Message(InboundMessage::Text("01234567".to_string())), &limits);
    assert!(matches!(a, IngressAction::Forward(RelayFrame::Text(_))));
    let a = w.on_event(4, InboundEvent::Message(InboundMessage::Text("ééééé".to_string())), &limits);
    assert_eq!(close_code(&a), 1009);
}

#[test]
fn req_017_closes_idle_socket() {
    let limits = RelayLimitsConfig { idle_timeout_ms: 30, ..RelayLimitsConfig::default() };
    let mut w = RateWindow::new(0);
    let a = w.on_event(40, InboundEvent::IdleTimeout, &limits);
    assert_eq!(close_code(&a), 1001);
    assert_eq!(w.messages_in_window, 0);
}

#[test]
fn req_018_rate_limits_inbound_messages_per_socket() {
    let limits = RelayLimitsConfig {
        max_messages_per_window: 2,
        rate_limit_window_ms: 60_000,
        ..RelayLimitsConfig::default()
    };
    let mut w = RateWindow::new(0);
    let m = |t: &str| InboundEvent::Message(InboundMessage::Text(t.to_string()));
    assert!(matches!(w.on_event(1, m("m1"), &limits), IngressAction::Forward(_)));
    assert!(matches!(w.on_event(2, m("m2"), &limits), IngressAction::Forward(_)));
    assert_eq!(close_code(&w.on_event(3, m("m3"), &limits)), 1008);
}

#[test]
fn rate_window_starts_afresh_after_its_length() {
    let limits = RelayLimitsConfig {
        max_messages_per_window: 1,
        rate_limit_window_ms: 100,
        ..RelayLimitsConfig::default()
    };
    let mut w = RateWindow::new(0);
    assert!(matches!(w.on_event(10, InboundEvent::Message(InboundMessage::Pong), &limits), IngressAction::Ignore));
    assert_eq!(close_code(&w.on_event(50, InboundEvent::Message(InboundMessage::Pong), &limits)), 1008);
    let mut w = RateWindow::new(0);
    w.on_event(10, InboundEvent::Message(InboundMessage::Pong), &limits);
    assert!(matches!(
        w.on_event(100, InboundEvent::Message(InboundMessage::Ping(vec![1])), &limits),
        IngressAction::AnswerPing(_)
    ));
    assert_eq!(w.window_started_ms, 100);
    assert_eq!(w.messages_in_window, 1);
    assert!(matches!(w.on_event(101, InboundEvent::Message(InboundMessage::Close), &limits), IngressAction::Reject(_)));
    let mut w = RateWindow::new(0);
    assert!(matches!(w.on_event(1, InboundEvent::Message(InboundMessage::Close), &limits), IngressAction::Stop));
    assert!(matches!(w.on_event(1, InboundEvent::Ended, &limits), IngressAction::Stop));
}

#[test]
fn peer_ids_are_version_4_uuids() {
    let id = paseo_relay_rust::peer::PeerId::new();
    assert_eq!((id.0 >> 76) & 0xf, 4);
    assert_eq!((id.0 >> 62) & 0x3, 2);
    assert_ne!(id, paseo_relay_rust::peer::PeerId::new());
}
