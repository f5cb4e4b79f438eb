//! Peer list semantics, the store's request surface, and the stored
//! document's round trip.

use teleport::config::Config;
use teleport::config::ConfigManager;
use teleport::config::ConfigReply;
use teleport::config::ConfigRequest;
use teleport::config::Peer;
use teleport::hex::parse_hex;
use teleport::hex::to_hex_string;
use teleport::identity::EndpointId;
use teleport::storage::parse_config_doc;
use teleport::storage::render_config_doc;

fn id_of(byte: u8) -> EndpointId {
    EndpointId::from_bytes(vec![byte; 32])
}

fn base_config() -> Config {
    Config::fresh(vec![0xAB; 32])
}

#[test]
fn fresh_config_has_defaults() {
    let c = base_config();
    assert_eq!(c.name, "Unnamed");
    assert!(c.target_dir.is_none());
    assert!(c.peers.is_empty());
    assert_eq!(c.key.len(), 32);
}

#[test]
fn register_new_peer_appends() {
    let mut c = base_config();
    c.register_peer(Peer { name: String::from("A"), id: id_of(1) });
    c.register_peer(Peer { name: String::from("B"), id: id_of(2) });
    assert_eq!(c.peers.len(), 2);
    assert!(c.is_peer_known(&id_of(1)));
    assert!(c.is_peer_known(&id_of(2)));
    assert!(!c.is_peer_known(&id_of(3)));
}

#[test]
fn register_same_id_updates_name_and_keeps_length() {
    let mut c = base_config();
    c.register_peer(Peer { name: String::from("Old"), id: id_of(1) });
    c.register_peer(Peer { name: String::from("Other"), id: id_of(2) });
    c.register_peer(Peer { name: String::from("New"), id: id_of(1) });
    assert_eq!(c.peers.len(), 2);
    assert_eq!(c.get_peer_name(&id_of(1)).unwrap(), "New");
    assert_eq!(c.get_peer_name(&id_of(2)).unwrap(), "Other");
    // Registering again changes nothing further.
    c.register_peer(Peer { name: String::from("New"), id: id_of(1) });
    assert_eq!(c.peers.len(), 2);
}

#[test]
fn peer_name_lookup() {
    let mut c = base_config();
    assert!(c.get_peer_name(&id_of(9)).is_none());
    c.register_peer(Peer { name: String::from("Phone"), id: id_of(9) });
    assert_eq!(c.get_peer_name(&id_of(9)).unwrap(), "Phone");
}

#[test]
fn manager_requests_and_persist_flags() {
    let mut m = ConfigManager::new(String::from("storage.toml"), base_config());
    let (reply, persist) = m.handle_request(ConfigRequest::GetDeviceName);
    assert!(!persist);
    assert!(matches!(reply, ConfigReply::DeviceName(n) if n == "Unnamed"));

    let (reply, persist) = m.handle_request(ConfigRequest::SetDeviceName(String::from("Desk")));
    assert!(persist);
    assert!(matches!(reply, ConfigReply::Ack));
    let (reply, _) = m.handle_request(ConfigRequest::GetDeviceName);
    assert!(matches!(reply, ConfigReply::DeviceName(n) if n == "Desk"));

    let (reply, persist) = m.handle_request(ConfigRequest::GetTargetDir);
    assert!(!persist);
    assert!(matches!(reply, ConfigReply::TargetDir(None)));
    let (_, persist) = m.handle_request(ConfigRequest::SetTargetDir(String::from("/downloads")));
    assert!(persist);
    let (reply, _) = m.handle_request(ConfigRequest::GetTargetDir);
    assert!(matches!(reply, ConfigReply::TargetDir(Some(d)) if d == "/downloads"));

    let (reply, persist) =
        m.handle_request(ConfigRequest::RegisterPeer(Peer { name: String::from("A"), id: id_of(7) }));
    assert!(persist);
    assert!(matches!(reply, ConfigReply::Ack));
    let (reply, _) = m.handle_request(ConfigRequest::IsPeerKnown(id_of(7)));
    assert!(matches!(reply, ConfigReply::IsPeerKnown(true)));
    let (reply, _) = m.handle_request(ConfigRequest::GetPeerName(id_of(7)));
    assert!(matches!(reply, ConfigReply::PeerName(Some(n)) if n == "A"));
    let (reply, _) = m.handle_request(ConfigRequest::GetPeers);
    assert!(matches!(reply, ConfigReply::Peers(v) if v.len() == 1));
    let (reply, _) = m.handle_request(ConfigRequest::GetKey);
    assert!(matches!(reply, ConfigReply::Key(k) if k == vec![0xAB; 32]));
}

#[test]
fn document_round_trip_plain() {
    let mut c = base_config();
    c.register_peer(Peer { name: String::from("Phone"), id: id_of(1) });
    c.register_peer(Peer { name: String::from("Tablet"), id: id_of(2) });
    let doc = render_config_doc(&c);
    let back = parse_config_doc(&doc).expect("rendered document should parse");
    assert_eq!(back.key, c.key);
    assert_eq!(back.name, c.name);
    assert_eq!(back.target_dir, c.target_dir);
    assert_eq!(back.peers.len(), 2);
    assert_eq!(back.get_peer_name(&id_of(1)).unwrap(), "Phone");
    assert_eq!(back.get_peer_name(&id_of(2)).unwrap(), "Tablet");
}

#[test]
fn document_round_trip_with_target_dir_and_tricky_names() {
    let mut c = base_config();
    c.name = String::from("Na\"me\\with\nnasty\tchars\r");
    c.target_dir = Some(String::from("/tmp/sa ve\\dir"));
    c.register_peer(Peer { name: String::from("peer \"quoted\" \u{1F600}"), id: id_of(0xEE) });
    let doc = render_config_doc(&c);
    let back = parse_config_doc(&doc).expect("rendered document should parse");
    assert_eq!(back.name, c.name);
    assert_eq!(back.target_dir, c.target_dir);
    assert_eq!(back.get_peer_name(&id_of(0xEE)).unwrap(), "peer \"quoted\" \u{1F600}");
}

#[test]
fn document_is_readable_text() {
    let c = base_config();
    let doc = render_config_doc(&c);
    let text = String::from_utf8(doc).expect("document is UTF-8");
    assert!(text.starts_with("key = \""));
    assert!(text.contains("name = \"Unnamed\"\n"));
}

#[test]
fn parser_rejects_mangled_documents() {
    let c = base_config();
    let doc = render_config_doc(&c);
    // Truncation.
    let mut cut = doc.clone();
    cut.pop();
    assert!(parse_config_doc(&cut).is_none());
    // A flipped byte in the prefix.
    let mut flipped = doc.clone();
    flipped[0] = b'x';
    assert!(parse_config_doc(&flipped).is_none());
    // Garbage.
    assert!(parse_config_doc(&b"not a config".to_vec()).is_none());
    assert!(parse_config_doc(&Vec::new()).is_none());
    // A key of the wrong length.
    let short = Config::fresh(vec![1; 32]);
    let mut doc2 = render_config_doc(&short);
    // Remove two hex digits from the key line.
    doc2.remove(8);
    doc2.remove(8);
    assert!(parse_config_doc(&doc2).is_none());
}

#[test]
fn hex_spelling_and_parsing() {
    let bytes = vec![0x00, 0x0F, 0xA5, 0xFF];
    let s = to_hex_string(&bytes);
    assert_eq!(s, "000fa5ff");
    let parsed = parse_hex(&s.into_bytes()).expect("hex should parse");
    assert_eq!(parsed, bytes);
    assert!(parse_hex(&b"0".to_vec()).is_none());
    assert!(parse_hex(&b"zz".to_vec()).is_none());
    assert!(parse_hex(&b"AB".to_vec()).is_none());
    assert_eq!(parse_hex(&Vec::new()).unwrap(), Vec::<u8>::new());
}

#[test]
fn endpoint_id_display_is_hex() {
    let id = id_of(0xC3);
    let hex = id.to_hex();
    assert_eq!(hex.len(), 64);
    assert!(hex.chars().all(|ch| ch == 'c' || ch == '3'));
    assert!(id.same_as(&id_of(0xC3)));
    assert!(!id.same_as(&id_of(0xC4)));
}

#[test]
fn ticket_round_trip() {
    let addr = String::from("endpoint-42 {\"hints\": [\"10.0.0.7:4433\"]}");
    let secret: Vec<u8> = (0..128u32).map(|i| (i * 7) as u8).collect();
    let ticket = teleport::ticket::ticket_encode(&addr, &secret);
    // Hex only: safe to paste anywhere.
    assert!(ticket.chars().all(|c| c.is_ascii_hexdigit()));
    let (addr2, secret2) = teleport::ticket::ticket_decode(&ticket).expect("ticket reads back");
    assert_eq!(addr2, addr);
    assert_eq!(secret2, secret);
}

#[test]
fn ticket_rejects_damage() {
    let ticket = teleport::ticket::ticket_encode(&String::from("a"), &vec![1, 2, 3]);
    let mut cut = ticket.clone();
    cut.pop();
    assert!(teleport::ticket::ticket_decode(&cut).is_none());
    assert!(teleport::ticket::ticket_decode(&String::from("zz")).is_none());
    assert!(teleport::ticket::ticket_decode(&String::new()).is_none());
    let mut extended = ticket.clone();
    extended.push_str("00");
    assert!(teleport::ticket::ticket_decode(&extended).is_none());
}
