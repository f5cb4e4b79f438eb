//! Pairing behavior: secret rotation, the acceptor machine, and the three
//! handshake scenarios driven end to end in memory.

use teleport::config::Config;
use teleport::config::Peer;
use teleport::identity::EndpointId;
use teleport::pair::HeloOutcome;
use teleport::pair::Pair;
use teleport::pair::PairAcceptPhase;
use teleport::pair::PairAcceptor;
use teleport::pair::PairCloseCode;
use teleport::pair::ReactionOutcome;
use teleport::pair::SecretOutcome;
use teleport::pairing::InboundDecision;
use teleport::pairing::OutboundPairOutcome;
use teleport::pairing::PairingState;
use teleport::pairing::outbound_pair_shortcut;
use teleport::pairing::classify_pair_reply;
use teleport::pairing::generate_secret;
use teleport::pairing::incoming_pair_completed;
use teleport::pairing::resolve_outbound_pairing;
use teleport::promise::init_promise;
use teleport::ui::PairingResponse;
use teleport::ui::UIPairReaction;

fn id_of(byte: u8) -> EndpointId {
    EndpointId::from_bytes(vec![byte; 32])
}

#[test]
fn secrets_are_long_and_fresh() {
    let a = generate_secret();
    let b = generate_secret();
    assert_eq!(a.len(), 128);
    assert_eq!(b.len(), 128);
    // Two independent 128-byte draws never collide in practice.
    assert_ne!(a, b);
}

#[test]
fn validate_secret_is_exact_equality() {
    let st = PairingState::new();
    let current = st.current_secret();
    assert!(st.validate_secret(&current));
    let mut wrong = current.clone();
    wrong[0] = wrong[0].wrapping_add(1);
    assert!(!st.validate_secret(&wrong));
    assert!(!st.validate_secret(&vec![0; 127]));
}

#[test]
fn every_inbound_attempt_rotates_the_secret() {
    let mut st = PairingState::new();
    // Without a subscriber nothing is published, yet the secret still turns.
    let before0 = st.current_secret();
    let d0 = st.incoming_pair_started(false, generate_secret());
    assert_eq!(d0, InboundDecision::Dropped);
    assert_ne!(before0, st.current_secret());
    st.install_sink();
    let before = st.current_secret();
    let d = st.incoming_pair_started(false, generate_secret());
    assert_eq!(d, InboundDecision::Publish);
    let after = st.current_secret();
    assert_ne!(before, after);
    // A rejected attempt rotates too.
    let d2 = st.incoming_pair_started(true, generate_secret());
    assert_eq!(d2, InboundDecision::RejectKnown);
    assert_ne!(after, st.current_secret());
}

#[test]
fn known_peer_is_rejected_before_the_subscriber_is_consulted() {
    // No sink is installed, yet an already-known peer is answered Reject,
    // never dropped: the known-peer check comes first.
    let mut st = PairingState::new();
    let d = st.incoming_pair_started(true, generate_secret());
    assert_eq!(d, InboundDecision::RejectKnown);
}

#[test]
fn outbound_pairing_short_circuits_for_known_peers() {
    let mut config = Config::fresh(vec![0xAA; 32]);
    let id = id_of(7);
    // An unknown peer needs the handshake.
    assert!(outbound_pair_shortcut(&config, &id).is_none());
    config.register_peer(Peer { name: String::from("B"), id: id.clone() });
    // A known one resolves Success with no traffic.
    assert!(matches!(outbound_pair_shortcut(&config, &id), Some(PairingResponse::Success)));
}

#[test]
fn acceptor_refuses_non_helo_and_lost_frames() {
    let mut acc = PairAcceptor::new(id_of(2));
    match acc.on_first_frame(Some(Pair::WrongSecret)) {
        HeloOutcome::Close(code) => assert_eq!(code.reason(), "INV_HELO"),
        _ => panic!("non-helo must close"),
    }
    let mut acc2 = PairAcceptor::new(id_of(2));
    assert!(matches!(acc2.on_first_frame(None), HeloOutcome::Close(PairCloseCode::InvalidHelo)));
    assert_eq!(PairCloseCode::Internal.reason(), "INT_ERR");
}

/// Both instances in one process: B pairs with A, A accepts, both end up in
/// each other's peer lists, and A's secret has rotated.
#[test]
fn happy_pair_registers_both_sides() {
    let mut config_a = Config::fresh(vec![0xAA; 32]);
    config_a.name = String::from("A");
    let mut config_b = Config::fresh(vec![0xBB; 32]);
    config_b.name = String::from("B");
    let id_a = id_of(0xA1);
    let id_b = id_of(0xB1);
    let mut pairing_a = PairingState::new();
    let secret_before = pairing_a.current_secret();

    // B fetches A's address and secret out of band, then opens with Helo.
    let helo = Pair::Helo {
        friendly_name: config_b.name.clone(),
        pairing_code: [1, 2, 3, 4, 5, 6],
        secret: pairing_a.current_secret(),
    };
    let frame = helo.encode();

    // A's acceptor takes the frame and validates the secret.
    let mut acc = PairAcceptor::new(EndpointId::from_bytes(vec![0xB1; 32]));
    assert!(matches!(acc.on_first_frame(Pair::decode(&frame)), HeloOutcome::ValidateSecret));
    let valid = pairing_a.validate_secret(&acc.presented);
    assert!(valid);
    assert!(matches!(acc.on_secret_checked(valid), SecretOutcome::Escalate));
    assert_eq!(acc.pairing_code, [1, 2, 3, 4, 5, 6]);

    // Escalation publishes to the UI and rotates the secret.
    pairing_a.install_sink();
    let decision = pairing_a.incoming_pair_started(config_a.is_peer_known(&id_b), generate_secret());
    assert_eq!(decision, InboundDecision::Publish);

    // The user accepts; A replies and registers B.
    let reply_frame = match acc.on_reaction(UIPairReaction::Accept, config_a.name.clone()) {
        ReactionOutcome::AcceptedPair { reply, peer } => {
            let resolution = incoming_pair_completed(&mut config_a, Ok(peer));
            assert!(resolution.is_ok());
            reply.encode()
        }
        _ => panic!("acceptance must carry the peer"),
    };
    assert_eq!(acc.phase, PairAcceptPhase::Closing);

    // B reads the reply and registers A.
    let outcome = classify_pair_reply(Pair::decode(&reply_frame).expect("reply decodes"));
    assert!(matches!(outcome, OutboundPairOutcome::Accepted { ref peer_name } if peer_name == "A"));
    let response = resolve_outbound_pairing(&mut config_b, id_a.clone(), outcome);
    assert!(matches!(response, PairingResponse::Success));

    assert!(config_a.is_peer_known(&id_b));
    assert!(config_b.is_peer_known(&id_a));
    assert_eq!(config_a.get_peer_name(&id_b).unwrap(), "B");
    assert_eq!(config_b.get_peer_name(&id_a).unwrap(), "A");
    assert_ne!(secret_before, pairing_a.current_secret());
}

/// A rejects the code: B resolves WrongCode, neither list grows, the secret
/// still rotates.
#[test]
fn wrong_code_registers_nobody() {
    let mut config_a = Config::fresh(vec![0xAA; 32]);
    let mut config_b = Config::fresh(vec![0xBB; 32]);
    let mut pairing_a = PairingState::new();
    let secret_before = pairing_a.current_secret();

    let helo = Pair::Helo {
        friendly_name: String::from("B"),
        pairing_code: [6, 5, 4, 3, 2, 1],
        secret: pairing_a.current_secret(),
    };
    let mut acc = PairAcceptor::new(id_of(0xB1));
    acc.on_first_frame(Pair::decode(&helo.encode()));
    assert!(matches!(acc.on_secret_checked(true), SecretOutcome::Escalate));
    pairing_a.install_sink();
    let decision = pairing_a.incoming_pair_started(false, generate_secret());
    assert_eq!(decision, InboundDecision::Publish);

    let reply = match acc.on_reaction(UIPairReaction::WrongPairingCode, String::from("A")) {
        ReactionOutcome::Declined { reply } => reply,
        _ => panic!("a declined code sends a plain reply"),
    };
    let outcome = classify_pair_reply(Pair::decode(&reply.encode()).unwrap());
    assert!(matches!(outcome, OutboundPairOutcome::CodeMismatch));
    let response = resolve_outbound_pairing(&mut config_b, id_of(0xA1), outcome);
    assert!(matches!(response, PairingResponse::WrongCode));

    assert!(config_a.peers.is_empty());
    assert!(config_b.peers.is_empty());
    assert_ne!(secret_before, pairing_a.current_secret());
}

/// B presents a fabricated secret: A answers WrongSecret without any UI
/// event, and the published secret does not rotate.
#[test]
fn wrong_secret_is_refused_without_escalation() {
    let mut config_b = Config::fresh(vec![0xBB; 32]);
    let pairing_a = PairingState::new();
    let secret_before = pairing_a.current_secret();

    let helo = Pair::Helo {
        friendly_name: String::from("B"),
        pairing_code: [1, 2, 3, 4, 5, 6],
        secret: vec![0x42; 128],
    };
    let mut acc = PairAcceptor::new(id_of(0xB1));
    acc.on_first_frame(Pair::decode(&helo.encode()));
    let valid = pairing_a.validate_secret(&acc.presented);
    assert!(!valid);
    match acc.on_secret_checked(valid) {
        SecretOutcome::RejectSecret => {}
        _ => panic!("a wrong secret must be refused"),
    }
    assert_eq!(PairCloseCode::InvalidSecret.reason(), "INV_SEC");

    // The acceptor answers WrongSecret; B maps it.
    let outcome = classify_pair_reply(Pair::decode(&Pair::WrongSecret.encode()).unwrap());
    assert!(matches!(outcome, OutboundPairOutcome::SecretMismatch));
    let response = resolve_outbound_pairing(&mut config_b, id_of(0xA1), outcome);
    assert!(matches!(response, PairingResponse::WrongSecret));
    assert!(config_b.peers.is_empty());

    // No escalation happened, so nothing rotated.
    assert_eq!(secret_before, pairing_a.current_secret());
}

#[test]
fn rejection_and_garbage_replies_surface_as_errors() {
    let mut config_b = Config::fresh(vec![0xBB; 32]);
    let outcome = classify_pair_reply(Pair::FuckOff);
    assert!(matches!(outcome, OutboundPairOutcome::Rejected));
    match resolve_outbound_pairing(&mut config_b, id_of(1), outcome) {
        PairingResponse::Error(e) => assert_eq!(e, "Peer rejected pairing"),
        _ => panic!("a rejection surfaces as an error"),
    }
    let outcome2 = classify_pair_reply(Pair::Helo {
        friendly_name: String::new(),
        pairing_code: [0; 6],
        secret: Vec::new(),
    });
    match resolve_outbound_pairing(&mut config_b, id_of(1), outcome2) {
        PairingResponse::Error(e) => assert_eq!(e, "Invalid msg type"),
        _ => panic!("an invalid reply surfaces as an error"),
    }
    assert!(config_b.peers.is_empty());
}

#[test]
fn failed_completion_passes_the_error_on() {
    let mut config = Config::fresh(vec![1; 32]);
    let r = incoming_pair_completed(&mut config, Err(String::from("stream reset")));
    assert_eq!(r.unwrap_err(), "stream reset");
    assert!(config.peers.is_empty());
}

#[test]
fn promises_hand_one_value_across() {
    let (promise, mut resolver) = init_promise::<u32>();
    resolver.resolve(7);
    assert_eq!(promise.wait(), Some(7));
    // A dropped resolver leaves the promise unresolved.
    let (promise2, resolver2) = init_promise::<u32>();
    drop(resolver2);
    assert_eq!(promise2.wait(), None);
}

#[test]
fn inbound_pair_carries_reaction_and_outcome() {
    let (reaction_promise, reaction_resolver) = init_promise::<UIPairReaction>();
    let (outcome_promise, mut outcome_resolver) = init_promise::<Result<(), String>>();
    let mut request = teleport::ui::InboundPair {
        peer: String::from("b1"),
        friendly_name: String::from("B"),
        pairing_code: [1, 2, 3, 4, 5, 6],
        reaction: reaction_resolver,
        outcome: outcome_promise,
    };
    // The UI answers through the notification...
    request.react(UIPairReaction::Accept);
    assert_eq!(reaction_promise.wait(), Some(UIPairReaction::Accept));
    // ...and the core later resolves the overall outcome.
    outcome_resolver.resolve(Ok(()));
    assert_eq!(request.result(), Some(Ok(())));
}
