//! Keepalive and connection-quality behavior, and the supervisor's request
//! routing.

use teleport::config::ConfigManager;
use teleport::config::Config;
use teleport::config::Peer;
use teleport::identity::EndpointId;
use teleport::keepalive::KeepAlive;
use teleport::keepalive::PongEvent;
use teleport::keepalive::acceptor_reply;
use teleport::keepalive::keepalive_alpn;
use teleport::keepalive::next_seq;
use teleport::keepalive::pong_keeps_connection;
use teleport::pair::pair_alpn;
use teleport::quality::ConnQuality;
use teleport::quality::PathInfo;
use teleport::quality::classify_paths;
use teleport::quality::quality_update_for;
use teleport::send::send_alpn;
use teleport::service::AppSupervisor;
use teleport::service::UIRequest;
use teleport::service::UIResponse;
use teleport::tasks::TaskSet;

fn id_of(byte: u8) -> EndpointId {
    EndpointId::from_bytes(vec![byte; 32])
}

#[test]
fn alpns_are_bytes_exact() {
    assert_eq!(pair_alpn(), "teleport/pair/0");
    assert_eq!(send_alpn(), "teleport/send/1");
    assert_eq!(keepalive_alpn(), "teleport/keepalive/1");
}

#[test]
fn acceptor_echoes_pings_and_ignores_pongs() {
    match acceptor_reply(&KeepAlive::Ping { seq: 42 }) {
        Some(KeepAlive::Pong { seq }) => assert_eq!(seq, 42),
        _ => panic!("a ping gets its pong"),
    }
    assert!(acceptor_reply(&KeepAlive::Pong { seq: 42 }).is_none());
}

#[test]
fn sequence_numbers_wrap() {
    assert_eq!(next_seq(0), 1);
    assert_eq!(next_seq(41), 42);
    assert_eq!(next_seq(u64::MAX), 0);
}

#[test]
fn late_or_wrong_pongs_force_a_reconnect() {
    // The matching pong keeps the connection.
    assert!(pong_keeps_connection(7, &PongEvent::Msg(KeepAlive::Pong { seq: 7 })));
    // A pong that arrives after the timeout window counts as a timeout:
    // the connection is torn down and rebuilt after the backoff.
    assert!(!pong_keeps_connection(7, &PongEvent::Timeout));
    assert!(!pong_keeps_connection(7, &PongEvent::Msg(KeepAlive::Pong { seq: 8 })));
    assert!(!pong_keeps_connection(7, &PongEvent::Msg(KeepAlive::Ping { seq: 7 })));
    assert!(!pong_keeps_connection(7, &PongEvent::RecvError));
}

#[test]
fn path_classification_prefers_the_selected_path() {
    let direct = PathInfo { selected: true, direct: true, rtt_ms: 12 };
    let relay = PathInfo { selected: true, direct: false, rtt_ms: 80 };
    let idle = PathInfo { selected: false, direct: true, rtt_ms: 5 };
    assert_eq!(classify_paths(&vec![idle, direct]), ConnQuality::Direct { latency_ms: 12 });
    assert_eq!(classify_paths(&vec![idle, relay]), ConnQuality::Relay { latency_ms: 80 });
    // No selected path: the peer is gone until a reconnect succeeds.
    assert_eq!(classify_paths(&vec![idle]), ConnQuality::NoPath);
    assert_eq!(classify_paths(&Vec::new()), ConnQuality::NoPath);
    // The first selected path wins.
    assert_eq!(classify_paths(&vec![relay, direct]), ConnQuality::Relay { latency_ms: 80 });
}

#[test]
fn quality_updates_name_the_peer_in_hex() {
    let up = quality_update_for(&id_of(0x0B), &vec![]);
    assert_eq!(up.peer.len(), 64);
    assert!(up.peer.chars().all(|c| c == '0' || c == 'b'));
    assert_eq!(up.quality, ConnQuality::NoPath);
}

#[test]
fn task_sets_start_each_peer_once() {
    let mut tasks = TaskSet::new();
    assert!(!tasks.is_running(&id_of(1)));
    assert!(tasks.start(id_of(1)));
    assert!(tasks.is_running(&id_of(1)));
    // A second start is a no-op: one keepalive connection per peer.
    assert!(!tasks.start(id_of(1)));
    assert!(tasks.start(id_of(2)));
    assert_eq!(tasks.running.len(), 2);
}

#[test]
fn supervisor_routes_requests() {
    let manager = ConfigManager::new(String::from("storage.toml"), Config::fresh(vec![9; 32]));
    let mut sup = AppSupervisor::new(
        manager,
        String::from("/tmp"),
        String::from("addr-of-this-endpoint"),
    );

    let (r, persist) = sup.handle_ui_request(UIRequest::GetLocalAddr);
    assert!(!persist);
    assert!(matches!(r, UIResponse::GetLocalAddr(a) if a == "addr-of-this-endpoint"));

    let (r, _) = sup.handle_ui_request(UIRequest::GetDeviceName);
    assert!(matches!(r, UIResponse::GetDeviceName(n) if n == "Unnamed"));
    let (r, persist) = sup.handle_ui_request(UIRequest::SetDeviceName(String::from("Desk")));
    assert!(persist);
    assert!(matches!(r, UIResponse::Ack));
    let (r, _) = sup.handle_ui_request(UIRequest::GetDeviceName);
    assert!(matches!(r, UIResponse::GetDeviceName(n) if n == "Desk"));

    let (r, persist) = sup.handle_ui_request(UIRequest::SetTargetDir(String::from("/dl")));
    assert!(persist);
    assert!(matches!(r, UIResponse::Ack));
    let (r, _) = sup.handle_ui_request(UIRequest::GetTargetDir);
    assert!(matches!(r, UIResponse::GetTargetDir(Some(d)) if d == "/dl"));

    let (r, _) = sup.handle_ui_request(UIRequest::GetSecret);
    assert!(matches!(r, UIResponse::Secret(s) if s.len() == 128));

    sup.config.config.register_peer(Peer { name: String::from("A"), id: id_of(3) });
    let (r, _) = sup.handle_ui_request(UIRequest::GetPeers);
    assert!(matches!(r, UIResponse::GetPeers(v) if v.len() == 1));

    for req in [
        UIRequest::PairingSubscription,
        UIRequest::FileSubscription,
        UIRequest::ConnQualitySubscription,
    ] {
        let (r, persist) = sup.handle_ui_request(req);
        assert!(!persist);
        assert!(matches!(r, UIResponse::Ack));
    }
    // The pairing subscription is what makes inbound attempts reach the UI.
    assert!(sup.pairing.sink_installed);
}

#[test]
fn inbound_attempts_are_dropped_until_the_ui_subscribes() {
    let manager = ConfigManager::new(String::from("storage.toml"), Config::fresh(vec![9; 32]));
    let mut sup = AppSupervisor::new(manager, String::from("/tmp"), String::from("addr"));
    assert!(!sup.pairing.sink_installed);
    let d = sup.pairing.incoming_pair_started(false, teleport::pairing::generate_secret());
    assert_eq!(d, teleport::pairing::InboundDecision::Dropped);
    sup.handle_ui_request(UIRequest::PairingSubscription);
    let d = sup.pairing.incoming_pair_started(false, teleport::pairing::generate_secret());
    assert_eq!(d, teleport::pairing::InboundDecision::Publish);
}
