//! Wire codec behavior: every message survives a round trip, and buffers
//! that encode no message are refused.

use teleport::keepalive::KeepAlive;
use teleport::pair::Pair;
use teleport::send::ChunkHeader;
use teleport::send::Offer;
use teleport::send::SendRequest;
use teleport::send::SendResponse;
use teleport::frame::frame_payload;
use teleport::frame::parse_frame_len;
use teleport::wire::read_varint;
use teleport::wire::write_varint;

#[test]
fn varint_round_trip_small_and_large() {
    for &x in &[0u64, 1, 127, 128, 300, 16384, u64::MAX] {
        let mut buf: Vec<u8> = Vec::new();
        write_varint(&mut buf, x);
        let (y, end) = read_varint(&buf, 0).expect("varint should parse");
        assert_eq!(y, x);
        assert_eq!(end, buf.len());
    }
}

#[test]
fn varint_single_byte_values() {
    let mut buf: Vec<u8> = Vec::new();
    write_varint(&mut buf, 5);
    assert_eq!(buf, vec![5]);
    let mut buf2: Vec<u8> = Vec::new();
    write_varint(&mut buf2, 300);
    assert_eq!(buf2, vec![0xAC, 0x02]);
}

#[test]
fn varint_rejects_non_minimal() {
    // 0x80 0x00 would spell zero with a trailing empty group.
    assert!(read_varint(&vec![0x80, 0x00], 0).is_none());
    // A lone continuation byte is incomplete.
    assert!(read_varint(&vec![0x80], 0).is_none());
    // Empty input holds no varint.
    assert!(read_varint(&vec![], 0).is_none());
}

#[test]
fn pair_helo_round_trip() {
    let secret: Vec<u8> = (0..128u32).map(|i| i as u8).collect();
    let msg = Pair::Helo {
        friendly_name: String::from("Laptop \u{e9}\u{4e16}"),
        pairing_code: [1, 2, 3, 4, 5, 6],
        secret: secret.clone(),
    };
    let bytes = msg.encode();
    match Pair::decode(&bytes) {
        Some(Pair::Helo { friendly_name, pairing_code, secret: s }) => {
            assert_eq!(friendly_name, "Laptop \u{e9}\u{4e16}");
            assert_eq!(pairing_code, [1, 2, 3, 4, 5, 6]);
            assert_eq!(s, secret);
        }
        _ => panic!("helo should decode to itself"),
    }
}

#[test]
fn pair_simple_variants_round_trip() {
    for msg in [Pair::FuckOff, Pair::WrongPairingCode, Pair::WrongSecret] {
        let bytes = msg.encode();
        let back = Pair::decode(&bytes).expect("should decode");
        assert_eq!(bytes, back.encode());
        assert_eq!(bytes.len(), 1);
    }
    let msg = Pair::NiceToMeetYou { friendly_name: String::from("Desk") };
    let back = Pair::decode(&msg.encode()).expect("should decode");
    match back {
        Pair::NiceToMeetYou { friendly_name } => assert_eq!(friendly_name, "Desk"),
        _ => panic!("wrong variant"),
    }
}

#[test]
fn pair_decode_rejects_garbage() {
    assert!(Pair::decode(&vec![]).is_none());
    assert!(Pair::decode(&vec![9]).is_none());
    // A Helo tag with nothing behind it.
    assert!(Pair::decode(&vec![0]).is_none());
    // A simple variant with a trailing byte.
    assert!(Pair::decode(&vec![1, 0]).is_none());
    // A truncated Helo: cut the last byte off a real one.
    let msg = Pair::Helo {
        friendly_name: String::from("x"),
        pairing_code: [0; 6],
        secret: vec![7, 7],
    };
    let mut bytes = msg.encode();
    bytes.pop();
    assert!(Pair::decode(&bytes).is_none());
}

#[test]
fn send_request_round_trips() {
    let offer = SendRequest::Offer(Offer { name: String::from("x"), size: 0 });
    match SendRequest::decode(&offer.encode()) {
        Some(SendRequest::Offer(o)) => {
            assert_eq!(o.name, "x");
            assert_eq!(o.size, 0);
        }
        _ => panic!("offer should decode"),
    }
    let big = SendRequest::Offer(Offer {
        name: String::from("big.bin"),
        size: 20 * 1024 * 1024 * 1024,
    });
    match SendRequest::decode(&big.encode()) {
        Some(SendRequest::Offer(o)) => assert_eq!(o.size, 20 * 1024 * 1024 * 1024),
        _ => panic!("offer should decode"),
    }
    for size in [0u32, 1, 1024 * 256, u32::MAX] {
        let hdr = SendRequest::ChunkHeader(ChunkHeader { size });
        match SendRequest::decode(&hdr.encode()) {
            Some(SendRequest::ChunkHeader(h)) => assert_eq!(h.size, size),
            _ => panic!("chunk header should decode"),
        }
    }
    let fin = SendRequest::Finish;
    assert!(matches!(SendRequest::decode(&fin.encode()), Some(SendRequest::Finish)));
}

#[test]
fn send_request_decode_rejects_garbage() {
    assert!(SendRequest::decode(&vec![]).is_none());
    assert!(SendRequest::decode(&vec![3]).is_none());
    assert!(SendRequest::decode(&vec![2, 0]).is_none());
    // A chunk header whose value is too big for u32.
    let mut buf: Vec<u8> = vec![1];
    write_varint(&mut buf, u32::MAX as u64 + 1);
    assert!(SendRequest::decode(&buf).is_none());
}

#[test]
fn send_response_round_trips() {
    for msg in [SendResponse::Accept, SendResponse::Reject, SendResponse::Done] {
        let bytes = msg.encode();
        let back = SendResponse::decode(&bytes).expect("should decode");
        assert_eq!(bytes, back.encode());
    }
    let err = SendResponse::Error(String::from("disk full"));
    match SendResponse::decode(&err.encode()) {
        Some(SendResponse::Error(e)) => assert_eq!(e, "disk full"),
        _ => panic!("error should decode"),
    }
    assert!(SendResponse::decode(&vec![4]).is_none());
    assert!(SendResponse::decode(&vec![0, 0]).is_none());
}

#[test]
fn keepalive_round_trips() {
    for seq in [0u64, 1, 5, u64::MAX] {
        let ping = KeepAlive::Ping { seq };
        match KeepAlive::decode(&ping.encode()) {
            Some(KeepAlive::Ping { seq: s }) => assert_eq!(s, seq),
            _ => panic!("ping should decode"),
        }
        let pong = KeepAlive::Pong { seq };
        match KeepAlive::decode(&pong.encode()) {
            Some(KeepAlive::Pong { seq: s }) => assert_eq!(s, seq),
            _ => panic!("pong should decode"),
        }
    }
    assert!(KeepAlive::decode(&vec![]).is_none());
    assert!(KeepAlive::decode(&vec![2, 1]).is_none());
    assert!(KeepAlive::decode(&vec![0]).is_none());
}

#[test]
fn frames_carry_length_prefixed_payloads() {
    let payload: Vec<u8> = vec![1, 2, 3, 4, 5];
    let frame = frame_payload(&payload, 4096).expect("fits the bound");
    assert_eq!(frame.len(), 4 + payload.len());
    assert_eq!(&frame[..4], &[0, 0, 0, 5]);
    assert_eq!(&frame[4..], &payload[..]);
    let n = parse_frame_len(&frame[..4].to_vec(), 4096).expect("length parses");
    assert_eq!(n, 5);
    // Over the per-stream bound in either direction.
    assert!(frame_payload(&vec![0; 65], 64).is_none());
    assert!(parse_frame_len(&vec![0, 1, 0, 0], 64).is_none());
}
