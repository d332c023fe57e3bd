use paseo_relay_rust::config::{RelayLimitsConfig, RelayTimingConfig};
use paseo_relay_rust::peer::{peer_meta_from, PeerId, PeerKind, PeerMeta};
use paseo_relay_rust::protocol::{ConnectionRole, RelayVersion, WsParams};
use paseo_relay_rust::session::{
    Delivery, NudgeStep, OutboundMessage, PeerHandle, RelayFrame, SessionKey, SessionState,
};
use tokio::sync::mpsc::{channel, Receiver};

fn meta(id: u128, role: ConnectionRole, version: RelayVersion, cid: Option<&str>) -> PeerMeta {
    let params = WsParams {
        server_id: "s1".to_string(),
        role,
        version,
        connection_id: cid.map(|c| c.to_string()),
    };
    peer_meta_from(params, PeerId(id), Some(format!("conn_{id:032x}")))
}

fn handle(m: &PeerMeta) -> (PeerHandle, Receiver<OutboundMessage>) {
    let (tx, rx) = channel(512);
    (PeerHandle { meta: m.clone(), tx }, rx)
}

fn control(id: u128) -> PeerMeta {
    meta(id, ConnectionRole::Server, RelayVersion::V2, None)
}

fn server_data(id: u128, cid: &str) -> PeerMeta {
    meta(id, ConnectionRole::Server, RelayVersion::V2, Some(cid))
}

fn client(id: u128, cid: &str) -> PeerMeta {
    meta(id, ConnectionRole::Client, RelayVersion::V2, Some(cid))
}

fn text_of(d: &Delivery) -> &str {
    match &d.message {
        OutboundMessage::Text(t) => t.as_str(),
        other => panic!("expected text, got {other:?}"),
    }
}

fn close_code(d: &Delivery) -> u16 {
    match &d.message {
        OutboundMessage::Close { code, .. } => *code,
        other => panic!("expected close, got {other:?}"),
    }
}

fn session() -> SessionState {
    SessionState::new(RelayLimitsConfig::default())
}

fn join(s: &mut SessionState, m: &PeerMeta) -> (Vec<Delivery>, Receiver<OutboundMessage>) {
    let (h, rx) = handle(m);
    let reg = s.register(h).expect("admitted");
    (reg.deliveries, rx)
}

#[test]
fn req_003_missing_version_defaults_to_v1() {
    let raw = paseo_relay_rust::protocol::RawWsParams {
        server_id: Some("s0".to_string()),
        role: Some("server".to_string()),
        v: None,
        connection_id: None,
    };
    let params = paseo_relay_rust::protocol::validate_params(raw).unwrap();
    assert_eq!(params.version, RelayVersion::V1);
    let mut s = session();
    let server = meta(1, ConnectionRole::Server, RelayVersion::V1, None);
    let client = meta(2, ConnectionRole::Client, RelayVersion::V1, None);
    join(&mut s, &server);
    join(&mut s, &client);
    let out = s.handle_frame(&client, RelayFrame::Text("fallback".to_string()), 0);
    assert_eq!(out.len(), 1);
    assert_eq!(out[0].peer, PeerId(1));
    assert_eq!(text_of(&out[0]), "fallback");
}

#[test]
fn req_005_v1_forwards_bidirectionally() {
    let mut s = session();
    let server = meta(1, ConnectionRole::Server, RelayVersion::V1, None);
    let client = meta(2, ConnectionRole::Client, RelayVersion::V1, None);
    join(&mut s, &server);
    join(&mut s, &client);
    let out = s.handle_frame(&client, RelayFrame::Text("to-server".to_string()), 0);
    assert_eq!(out[0].peer, PeerId(1));
    assert_eq!(text_of(&out[0]), "to-server");
    let out = s.handle_frame(&server, RelayFrame::Text("to-client".to_string()), 0);
    assert_eq!(out[0].peer, PeerId(2));
    assert_eq!(text_of(&out[0]), "to-client");
}

#[test]
fn req_005_replacing_v1_server_closes_previous_socket() {
    let mut s = session();
    let original = meta(1, ConnectionRole::Server, RelayVersion::V1, None);
    let replacement = meta(2, ConnectionRole::Server, RelayVersion::V1, None);
    join(&mut s, &original);
    let (out, _) = join(&mut s, &replacement);
    assert_eq!(out.len(), 1);
    assert_eq!(out[0].peer, PeerId(1));
    assert_eq!(close_code(&out[0]), 1008);
    assert_eq!(s.count_live_sockets(), 1);
}

#[test]
fn req_008_control_receives_sync_and_connected() {
    let mut s = session();
    let (out, _) = join(&mut s, &control(1));
    assert_eq!(out.len(), 1);
    assert!(text_of(&out[0]).contains("\"type\":\"sync\""));
    let (out, _) = join(&mut s, &client(2, "conn-a"));
    assert_eq!(out.len(), 1);
    assert_eq!(out[0].peer, PeerId(1));
    assert!(text_of(&out[0]).contains("\"type\":\"connected\""));
    assert!(text_of(&out[0]).contains("conn-a"));
}

#[test]
fn req_010_pending_frames_flush_when_server_data_arrives() {
    let mut s = session();
    join(&mut s, &control(1));
    let c = client(2, "conn-b");
    join(&mut s, &c);
    let out = s.handle_frame(&c, RelayFrame::Text("early".to_string()), 0);
    assert!(out.is_empty());
    let (out, _) = join(&mut s, &server_data(3, "conn-b"));
    assert_eq!(out.len(), 1);
    assert_eq!(out[0].peer, PeerId(3));
    assert_eq!(text_of(&out[0]), "early");
}

#[test]
fn req_009_v2_forwards_client_frames_to_server_data() {
    let mut s = session();
    join(&mut s, &control(1));
    join(&mut s, &server_data(2, "conn-d"));
    let c = client(3, "conn-d");
    join(&mut s, &c);
    let out = s.handle_frame(&c, RelayFrame::Text("hello-server".to_string()), 0);
    assert_eq!(out.len(), 1);
    assert_eq!(out[0].peer, PeerId(2));
    assert_eq!(text_of(&out[0]), "hello-server");
}

#[test]
fn req_009_v2_forwards_server_data_frames_to_clients() {
    let mut s = session();
    join(&mut s, &control(1));
    join(&mut s, &client(2, "conn-e"));
    let sd = server_data(3, "conn-e");
    join(&mut s, &sd);
    let out = s.handle_frame(&sd, RelayFrame::Text("hello-client".to_string()), 0);
    assert_eq!(out.len(), 1);
    assert_eq!(out[0].peer, PeerId(2));
    assert_eq!(text_of(&out[0]), "hello-client");
}

#[test]
fn req_009_v2_fans_out_server_data_to_multiple_clients() {
    let mut s = session();
    join(&mut s, &control(1));
    join(&mut s, &client(2, "conn-f"));
    join(&mut s, &client(3, "conn-f"));
    let sd = server_data(4, "conn-f");
    join(&mut s, &sd);
    let out = s.handle_frame(&sd, RelayFrame::Text("fanout".to_string()), 0);
    assert_eq!(out.len(), 2);
    let mut peers: Vec<u128> = out.iter().map(|d| d.peer.0).collect();
    peers.sort();
    assert_eq!(peers, vec![2, 3]);
    assert!(out.iter().all(|d| text_of(d) == "fanout"));
}

#[test]
fn req_009_v2_forwards_binary_frames() {
    let mut s = session();
    join(&mut s, &control(1));
    let c = client(2, "conn-g");
    join(&mut s, &c);
    join(&mut s, &server_data(3, "conn-g"));
    let payload = vec![1_u8, 2, 3, 4, 5];
    let out = s.handle_frame(&c, RelayFrame::Binary(payload.clone()), 0);
    assert_eq!(out.len(), 1);
    match &out[0].message {
        OutboundMessage::Binary(bytes) => assert_eq!(bytes, &payload),
        other => panic!("expected binary message, got {other:?}"),
    }
}

#[test]
fn req_007_replacing_server_data_closes_previous_socket() {
    let mut s = session();
    join(&mut s, &control(1));
    join(&mut s, &server_data(2, "conn-h"));
    let (out, _) = join(&mut s, &server_data(3, "conn-h"));
    assert_eq!(out.len(), 1);
    assert_eq!(out[0].peer, PeerId(2));
    assert_eq!(close_code(&out[0]), 1008);
}

#[test]
fn req_008_control_receives_disconnected_when_last_client_leaves() {
    let mut s = session();
    join(&mut s, &control(1));
    let c = client(2, "conn-i");
    let (out, _) = join(&mut s, &c);
    assert!(text_of(&out[0]).contains("\"type\":\"connected\""));
    let out = s.unregister(&c);
    assert_eq!(out.len(), 1);
    assert_eq!(out[0].peer, PeerId(1));
    assert!(text_of(&out[0]).contains("\"type\":\"disconnected\""));
    assert!(text_of(&out[0]).contains("conn-i"));
}

#[test]
fn req_006_client_without_connection_id_gets_routed_after_sync() {
    let mut s = session();
    join(&mut s, &control(1));
    let params = WsParams {
        server_id: "s11".to_string(),
        role: ConnectionRole::Client,
        version: RelayVersion::V2,
        connection_id: None,
    };
    let c = paseo_relay_rust::peer::build_peer_meta(params);
    let generated = c.connection_id.clone().unwrap();
    assert!(generated.starts_with("conn_"));
    let (out, _) = join(&mut s, &c);
    let value: serde_json::Value = serde_json::from_str(text_of(&out[0])).unwrap();
    assert_eq!(value["connectionId"].as_str().unwrap(), generated);
    let sd = server_data(3, &generated);
    join(&mut s, &sd);
    let out = s.handle_frame(&c, RelayFrame::Text("auto-id".to_string()), 0);
    assert_eq!(out[0].peer, PeerId(3));
    assert_eq!(text_of(&out[0]), "auto-id");
}

#[test]
fn req_007_replacing_control_closes_previous_socket() {
    let mut s = session();
    join(&mut s, &control(1));
    let (out, _) = join(&mut s, &control(2));
    assert_eq!(out.len(), 2);
    assert_eq!(out[0].peer, PeerId(1));
    assert_eq!(close_code(&out[0]), 1008);
    assert_eq!(out[1].peer, PeerId(2));
    assert!(text_of(&out[1]).contains("\"type\":\"sync\""));
}

#[test]
fn req_011_last_client_disconnect_closes_server_data() {
    let mut s = session();
    join(&mut s, &control(1));
    let c = client(2, "conn-j");
    join(&mut s, &c);
    join(&mut s, &server_data(3, "conn-j"));
    let out = s.unregister(&c);
    assert_eq!(out.len(), 2);
    assert_eq!(out[0].peer, PeerId(3));
    assert_eq!(close_code(&out[0]), 1001);
    assert_eq!(out[1].peer, PeerId(1));
    assert!(!s.has_server_data_socket("conn-j"));
}

#[test]
fn req_010_pending_buffer_keeps_latest_200_frames() {
    let mut s = session();
    let c = client(1, "conn-k");
    join(&mut s, &c);
    for i in 0..205 {
        s.handle_frame(&c, RelayFrame::Text(format!("msg-{i}")), 0);
    }
    let (out, _) = join(&mut s, &server_data(2, "conn-k"));
    assert_eq!(out.len(), 200);
    assert_eq!(text_of(out.first().unwrap()), "msg-5");
    assert_eq!(text_of(out.last().unwrap()), "msg-204");
}

#[test]
fn req_012_control_gets_sync_nudge_then_forced_close_when_unresponsive() {
    let timings = RelayTimingConfig { initial_nudge_delay_ms: 20, second_nudge_delay_ms: 20 };
    assert_eq!(timings.initial_nudge_delay_ms, 20);
    let mut s = session();
    join(&mut s, &control(1));
    let h = handle(&client(2, "conn-l")).0;
    let reg = s.register(h).unwrap();
    assert_eq!(reg.nudge.as_deref(), Some("conn-l"));
    assert!(text_of(&reg.deliveries[0]).contains("\"type\":\"connected\""));
    let first = s.nudge_step("conn-l", NudgeStep::First).unwrap();
    assert_eq!(first.len(), 1);
    assert!(text_of(&first[0]).contains("\"type\":\"sync\""));
    let last = s.nudge_step("conn-l", NudgeStep::Final).unwrap();
    assert_eq!(last[0].peer, PeerId(1));
    assert_eq!(close_code(&last[0]), 1011);
}

#[test]
fn nudge_stops_once_server_data_arrives() {
    let mut s = session();
    join(&mut s, &control(1));
    join(&mut s, &client(2, "conn-x"));
    join(&mut s, &server_data(3, "conn-x"));
    assert!(s.nudge_step("conn-x", NudgeStep::First).is_none());
    assert!(s.nudge_step("nobody", NudgeStep::Final).is_none());
}

#[test]
fn req_015_rejects_too_many_clients_per_connection() {
    let limits = RelayLimitsConfig { max_clients_per_connection: 1, ..RelayLimitsConfig::default() };
    let mut s = SessionState::new(limits);
    join(&mut s, &client(1, "conn-n"));
    let (h, _) = handle(&client(2, "conn-n"));
    match s.register(h) {
        Err(reason) => assert_eq!(reason, "Client connection limit exceeded"),
        Ok(_) => panic!("expected a refusal"),
    }
}

#[test]
fn req_015_rejects_too_many_sockets_per_session() {
    let limits = RelayLimitsConfig { max_sockets_per_session: 2, ..RelayLimitsConfig::default() };
    let mut s = SessionState::new(limits);
    join(&mut s, &control(1));
    join(&mut s, &client(2, "conn-o"));
    let (h, _) = handle(&server_data(3, "conn-o"));
    match s.register(h) {
        Err(reason) => assert_eq!(reason, "Session socket limit exceeded"),
        Ok(_) => panic!("expected a refusal"),
    }
    assert_eq!(s.count_live_sockets(), 2);
}

#[test]
fn req_011_server_disconnect_closes_clients() {
    let mut s = session();
    join(&mut s, &control(1));
    join(&mut s, &client(2, "conn-c"));
    let sd = server_data(3, "conn-c");
    join(&mut s, &sd);
    let out = s.unregister(&sd);
    assert_eq!(out.len(), 1);
    assert_eq!(out[0].peer, PeerId(2));
    assert_eq!(close_code(&out[0]), 1012);
    assert!(!s.has_server_data_socket("conn-c"));
}

#[test]
fn control_ping_is_answered_with_pong() {
    let mut s = session();
    let c = control(1);
    join(&mut s, &c);
    let out = s.handle_frame(&c, RelayFrame::Text("{\"type\":\"ping\"}".to_string()), 42);
    assert_eq!(out.len(), 1);
    assert_eq!(text_of(&out[0]), "{\"ts\":42,\"type\":\"pong\"}");
    let out = s.handle_frame(&c, RelayFrame::Text("{\"type\":\"other\"}".to_string()), 42);
    assert!(out.is_empty());
    let stale = control(9);
    let out = s.handle_frame(&stale, RelayFrame::Text("{\"type\":\"ping\"}".to_string()), 42);
    assert!(out.is_empty());
}

#[test]
fn websocket_ping_gets_pong_with_payload() {
    let mut s = session();
    let c = client(2, "conn-p");
    join(&mut s, &c);
    let out = s.handle_ping(&c, vec![7, 8]);
    assert_eq!(out.len(), 1);
    assert_eq!(out[0].peer, PeerId(2));
    match &out[0].message {
        OutboundMessage::Pong(p) => assert_eq!(p, &vec![7, 8]),
        other => panic!("expected pong, got {other:?}"),
    }
    s.unregister(&c);
    assert!(s.handle_ping(&c, vec![1]).is_empty());
}

#[test]
fn sync_lists_active_connection_ids_sorted() {
    let mut s = session();
    join(&mut s, &client(1, "zeta"));
    join(&mut s, &client(2, "alpha"));
    join(&mut s, &client(3, "mid"));
    join(&mut s, &client(4, "alpha"));
    assert_eq!(s.collect_client_connection_ids(), vec!["alpha", "mid", "zeta"]);
    let (out, _) = join(&mut s, &control(9));
    assert_eq!(text_of(&out[0]), "{\"connectionIds\":[\"alpha\",\"mid\",\"zeta\"],\"type\":\"sync\"}");
    assert_eq!(s.count_live_sockets(), 5);
}

#[test]
fn register_then_unregister_leaves_session_as_it_was() {
    let mut s = session();
    let c = client(5, "conn-r");
    join(&mut s, &c);
    assert_eq!(s.count_live_sockets(), 1);
    assert!(s.has_client_socket("conn-r"));
    let out = s.unregister(&c);
    assert!(out.is_empty());
    assert_eq!(s.count_live_sockets(), 0);
    assert!(!s.has_client_socket("conn-r"));
    assert!(s.collect_client_connection_ids().is_empty());
}

#[test]
fn unregister_of_replaced_socket_keeps_replacement() {
    let mut s = session();
    let first = control(1);
    join(&mut s, &first);
    join(&mut s, &control(2));
    s.unregister(&first);
    assert_eq!(s.count_live_sockets(), 1);
}

#[test]
fn version_mismatch_frames_are_dropped() {
    let mut s = session();
    let server = meta(1, ConnectionRole::Server, RelayVersion::V1, None);
    join(&mut s, &server);
    let mut odd = meta(2, ConnectionRole::Client, RelayVersion::V1, None);
    odd.version = RelayVersion::V2;
    assert!(matches!(odd.kind, PeerKind::V1Client));
    assert!(s.handle_frame(&odd, RelayFrame::Text("x".to_string()), 0).is_empty());
}

#[test]
fn dispatch_queues_messages_on_channels() {
    let mut s = session();
    let c = control(1);
    let (h, mut rx) = handle(&c);
    let reg = s.register(h).unwrap();
    s.dispatch(reg.deliveries);
    match rx.try_recv().unwrap() {
        OutboundMessage::Text(t) => assert!(t.contains("\"type\":\"sync\"")),
        other => panic!("expected sync, got {other:?}"),
    }
    let (h2, mut rx2) = handle(&control(2));
    let reg = s.register(h2).unwrap();
    s.dispatch(reg.deliveries);
    match rx.try_recv().unwrap() {
        OutboundMessage::Close { code, reason } => {
            assert_eq!(code, 1008);
            assert_eq!(reason, "Replaced by new connection");
        }
        other => panic!("expected close, got {other:?}"),
    }
    assert!(rx2.try_recv().is_ok());
}

#[test]
fn full_queue_closes_slow_consumer() {
    let mut s = session();
    let c = control(1);
    // A queue of one message, with the place kept for the close.
    let (tx, mut rx) = channel(2);
    let reg = s.register(PeerHandle { meta: c.clone(), tx }).unwrap();
    s.dispatch(reg.deliveries);
    let out = s.handle_frame(&c, RelayFrame::Text("{\"type\":\"ping\"}".to_string()), 1);
    s.dispatch(out);
    let out = s.handle_frame(&c, RelayFrame::Text("{\"type\":\"ping\"}".to_string()), 2);
    s.dispatch(out);
    assert!(matches!(rx.try_recv().unwrap(), OutboundMessage::Text(_)));
    match rx.try_recv().unwrap() {
        OutboundMessage::Close { code, reason } => {
            assert_eq!(code, 1013);
            assert_eq!(reason, "Slow consumer");
        }
        other => panic!("expected close, got {other:?}"),
    }
    assert!(rx.try_recv().is_err());
}

#[test]
fn session_key_carries_server_and_version() {
    let params = WsParams {
        server_id: "srv".to_string(),
        role: ConnectionRole::Server,
        version: RelayVersion::V2,
        connection_id: None,
    };
    let key = SessionKey::for_params(&params);
    assert_eq!(key.server_id, "srv");
    assert_eq!(key.version, RelayVersion::V2);
    let other = SessionKey { server_id: "srv".to_string(), version: RelayVersion::V1 };
    assert_ne!(key, other);
}
