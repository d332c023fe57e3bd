use paseo_relay_rust::config::RelayLimitsConfig;
use paseo_relay_rust::peer::{build_peer_meta, peer_meta_from, PeerId, PeerMeta};
use paseo_relay_rust::protocol::{ConnectionRole, RelayVersion, WsParams};
use paseo_relay_rust::channel::SendOutcome;
use paseo_relay_rust::peer::connection_id_from_bits;
use paseo_relay_rust::session::{
    follow_up, millis_of, outbound_choice, refusal_close, send_or_close, Delivery, Dispatched,
    OutboundMessage, PeerHandle, SessionState,
};
use tokio::sync::mpsc::{channel, Receiver};

fn v1(id: u128, role: ConnectionRole) -> PeerMeta {
    let params = WsParams {
        server_id: "s1".to_string(),
        role,
        version: RelayVersion::V1,
        connection_id: None,
    };
    peer_meta_from(params, PeerId(id), None)
}

fn text(t: &str) -> OutboundMessage {
    OutboundMessage::Text(t.to_string())
}

fn close_parts(m: &OutboundMessage) -> (u16, String) {
    match m {
        OutboundMessage::Close { code, reason } => (*code, reason.clone()),
        other => panic!("expected close, got {other:?}"),
    }
}

#[test]
fn slow_consumer_is_told_to_close_in_the_kept_place() {
    let (tx, mut rx) = channel::<OutboundMessage>(2);
    let first = send_or_close(&tx, text("a"));
    assert_eq!(first.room.free(), 2);
    assert_eq!(first.attempts.len(), 1);
    assert_eq!(first.attempts[0].outcome(), SendOutcome::Sent);

    let second = send_or_close(&tx, text("b"));
    assert_eq!(second.room.free(), 1);
    assert_eq!(second.attempts.len(), 1);
    assert_eq!(second.attempts[0].outcome(), SendOutcome::Sent);

    let third = send_or_close(&tx, text("c"));
    assert_eq!(third.room.free(), 0);
    assert_eq!(third.attempts.len(), 2);
    assert_eq!(third.attempts[0].outcome(), SendOutcome::Full);
    assert_eq!(third.attempts[1].outcome(), SendOutcome::Full);

    match rx.try_recv().unwrap() {
        OutboundMessage::Text(t) => assert_eq!(t, "a"),
        other => panic!("expected text, got {other:?}"),
    }
    assert_eq!(close_parts(&rx.try_recv().unwrap()), (1013, "Slow consumer".to_string()));
    assert!(rx.try_recv().is_err());
}

#[test]
fn send_to_a_gone_socket_reports_closed() {
    let (tx, rx) = channel::<OutboundMessage>(4);
    drop(rx);
    let report = send_or_close(&tx, text("a"));
    assert_eq!(report.attempts.len(), 1);
    assert_eq!(report.attempts[0].outcome(), SendOutcome::Closed);
}

#[test]
fn outbound_choice_keeps_the_last_place() {
    match outbound_choice(2, text("x")) {
        OutboundMessage::Text(t) => assert_eq!(t, "x"),
        other => panic!("expected text, got {other:?}"),
    }
    assert_eq!(close_parts(&outbound_choice(1, text("x"))), (1013, "Slow consumer".to_string()));
    assert_eq!(close_parts(&outbound_choice(0, text("x"))), (1013, "Slow consumer".to_string()));
}

#[test]
fn only_a_full_queue_is_followed_by_a_close() {
    let after_full = follow_up(&SendOutcome::Full).expect("a close follows");
    assert_eq!(close_parts(&after_full), (1013, "Slow consumer".to_string()));
    assert!(follow_up(&SendOutcome::Sent).is_none());
    assert!(follow_up(&SendOutcome::Closed).is_none());
}

#[test]
fn refused_registration_close_carries_reason() {
    assert_eq!(
        close_parts(&refusal_close("Session socket limit exceeded")),
        (1008, "Session socket limit exceeded".to_string())
    );
}

#[test]
fn clock_readings_become_u64_millis() {
    assert_eq!(millis_of(Some(1_700_000_000_123)), 1_700_000_000_123);
    assert_eq!(millis_of(Some((1u128 << 64) + 7)), 7);
    assert_eq!(millis_of(None), 0);
}

#[test]
fn built_peer_ids_are_version_4_uuids() {
    let params = WsParams {
        server_id: "s1".to_string(),
        role: ConnectionRole::Client,
        version: RelayVersion::V2,
        connection_id: None,
    };
    let m = build_peer_meta(params);
    assert_eq!((m.peer_id.0 >> 76) & 0xf, 4);
    assert_eq!((m.peer_id.0 >> 62) & 0x3, 2);
}

fn attach(s: &mut SessionState, m: &PeerMeta) -> Receiver<OutboundMessage> {
    let (tx, rx) = channel(8);
    s.register(PeerHandle { meta: m.clone(), tx }).expect("admitted");
    rx
}

#[test]
fn outbox_sends_each_delivery_to_its_peers_channel() {
    let mut s = SessionState::new(RelayLimitsConfig::default());
    let server = v1(1, ConnectionRole::Server);
    let client = v1(2, ConnectionRole::Client);
    let mut server_rx = attach(&mut s, &server);
    let mut client_rx = attach(&mut s, &client);
    let deliveries = vec![
        Delivery { peer: PeerId(2), message: text("to client") },
        Delivery { peer: PeerId(99), message: text("to nobody") },
        Delivery { peer: PeerId(1), message: text("to server") },
    ];
    let outbox = s.outbox(deliveries);
    assert_eq!(outbox.len(), 2);
    assert_ne!(outbox[0].0, outbox[1].0);

    let deliveries = vec![
        Delivery { peer: PeerId(2), message: text("to client") },
        Delivery { peer: PeerId(99), message: text("to nobody") },
        Delivery { peer: PeerId(1), message: text("to server") },
    ];
    let done = s.dispatch(deliveries);
    assert_eq!(done.len(), 2);
    for step in &done {
        match step {
            Dispatched::Message(report) => {
                assert_eq!(report.attempts.len(), 1);
                assert_eq!(report.attempts[0].outcome(), SendOutcome::Sent);
            }
            Dispatched::Close(_) => panic!("no close was dispatched"),
        }
    }
    match client_rx.try_recv().unwrap() {
        OutboundMessage::Text(t) => assert_eq!(t, "to client"),
        other => panic!("expected text, got {other:?}"),
    }
    match server_rx.try_recv().unwrap() {
        OutboundMessage::Text(t) => assert_eq!(t, "to server"),
        other => panic!("expected text, got {other:?}"),
    }
    assert!(client_rx.try_recv().is_err());
    assert!(server_rx.try_recv().is_err());
}

#[test]
fn well_formed_session_lists_active_ids_sorted_without_repeats() {
    let mut s = SessionState::new(RelayLimitsConfig::default());
    for (id, cid) in [(10u128, "b"), (11, "a"), (12, "b"), (13, "c")] {
        let params = WsParams {
            server_id: "s1".to_string(),
            role: ConnectionRole::Client,
            version: RelayVersion::V2,
            connection_id: Some(cid.to_string()),
        };
        attach(&mut s, &peer_meta_from(params, PeerId(id), None));
    }
    assert_eq!(s.collect_client_connection_ids(), vec!["a", "b", "c"]);
}

#[test]
fn generated_connection_ids_carry_v4_digits() {
    for _ in 0..16 {
        let id = paseo_relay_rust::peer::generate_connection_id();
        let digits: Vec<char> = id.chars().collect();
        assert_eq!(digits[17], '4');
        assert!(matches!(digits[21], '8' | '9' | 'a' | 'b'));
    }
}

#[test]
fn connection_id_is_the_simple_text_of_the_bits() {
    assert_eq!(
        connection_id_from_bits(0x0123_4567_89ab_4def_8123_4567_89ab_cdef),
        "conn_0123456789ab4def8123456789abcdef"
    );
    assert_eq!(connection_id_from_bits(0), "conn_00000000000000000000000000000000");
}

#[test]
fn dispatched_close_is_handed_over_once() {
    let mut s = SessionState::new(RelayLimitsConfig::default());
    let server = v1(1, ConnectionRole::Server);
    let mut rx = attach(&mut s, &server);
    let done = s.dispatch(vec![Delivery {
        peer: PeerId(1),
        message: OutboundMessage::Close { code: 1008, reason: "bye".to_string() },
    }]);
    assert_eq!(done.len(), 1);
    match &done[0] {
        Dispatched::Close(attempt) => assert_eq!(attempt.outcome(), SendOutcome::Sent),
        Dispatched::Message(_) => panic!("expected a close"),
    }
    assert_eq!(close_parts(&rx.try_recv().unwrap()), (1008, "bye".to_string()));
}
