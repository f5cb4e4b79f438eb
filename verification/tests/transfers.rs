//! Transfer behavior: the receive and send state machines, their boundary
//! cases, and an in-memory end-to-end transfer.

use teleport::config::Config;
use teleport::config::Peer;
use teleport::identity::EndpointId;
use teleport::receiver::DataOutcome;
use teleport::receiver::DecisionOutcome;
use teleport::receiver::FrameOutcome;
use teleport::receiver::OfferOutcome;
use teleport::receiver::Receiver;
use teleport::receiver::RecvPhase;
use teleport::receiver::SendError;
use teleport::send::ChunkHeader;
use teleport::send::Offer;
use teleport::send::SendRequest;
use teleport::send::CHUNK_SIZE;
use teleport::send::MAX_FILE_SIZE;
use teleport::sender::DoneReplyCheck;
use teleport::sender::OfferReplyCheck;
use teleport::sender::SendStep;
use teleport::sender::Sender;
use teleport::sender::check_done_reply;
use teleport::sender::check_offer_reply;
use teleport::send::SendResponse;
use teleport::transfer::DownloadStatus;
use teleport::transfer::FileStatus;
use teleport::transfer::TransferState;
use teleport::ui::InboundFileStatus;

fn id_of(byte: u8) -> EndpointId {
    EndpointId::from_bytes(vec![byte; 32])
}

fn offer(name: &str, size: u64) -> SendRequest {
    SendRequest::Offer(Offer { name: String::from(name), size })
}

#[test]
fn empty_file_completes_without_chunks() {
    let mut m = Receiver::new();
    assert!(matches!(m.on_first_frame(offer("x", 0)), OfferOutcome::Authorize));
    // Acceptance emits the initial progress at zero of zero.
    assert!(matches!(m.on_decision(true), DecisionOutcome::Accepted));
    assert_eq!(m.offset, 0);
    assert_eq!(m.size, 0);
    assert!(matches!(m.on_frame(&SendRequest::Finish), FrameOutcome::Complete));
    assert_eq!(m.phase, RecvPhase::Closing);
}

#[test]
fn offer_at_limit_is_accepted() {
    let mut m = Receiver::new();
    assert!(matches!(m.on_first_frame(offer("big", MAX_FILE_SIZE)), OfferOutcome::Authorize));
}

#[test]
fn offer_over_limit_is_refused_before_accept() {
    let mut m = Receiver::new();
    match m.on_first_frame(offer("too-big", MAX_FILE_SIZE + 1)) {
        OfferOutcome::Close(e) => {
            assert_eq!(e, SendError::Oversize);
            assert_eq!(e.to_close_code(), "OVERSIZE");
        }
        _ => panic!("oversized offer must be refused"),
    }
    assert_eq!(m.phase, RecvPhase::Failed);
}

#[test]
fn non_offer_first_frame_is_refused() {
    let mut m = Receiver::new();
    match m.on_first_frame(SendRequest::Finish) {
        OfferOutcome::Close(e) => assert_eq!(e.to_close_code(), "EXP_OFFER"),
        _ => panic!("a first frame that is no offer must be refused"),
    }
}

#[test]
fn chunk_length_mismatch_aborts_with_inv_chunk() {
    let mut m = Receiver::new();
    m.on_first_frame(offer("f", 1000));
    m.on_decision(true);
    assert!(matches!(
        m.on_frame(&SendRequest::ChunkHeader(ChunkHeader { size: 100 })),
        FrameOutcome::ExpectData { len: 100 }
    ));
    match m.on_data(99) {
        DataOutcome::Abort(e) => {
            assert_eq!(e, SendError::InvalidChunk);
            assert_eq!(e.to_close_code(), "INV_CHUNK");
        }
        _ => panic!("length mismatch must abort"),
    }
}

#[test]
fn finish_before_all_bytes_aborts_with_inv_chunk() {
    let mut m = Receiver::new();
    m.on_first_frame(offer("f", 10));
    m.on_decision(true);
    match m.on_frame(&SendRequest::Finish) {
        FrameOutcome::Abort(e) => assert_eq!(e, SendError::InvalidChunk),
        _ => panic!("early finish must abort"),
    }
}

#[test]
fn more_data_than_offered_aborts_with_oversize() {
    let mut m = Receiver::new();
    m.on_first_frame(offer("f", 10));
    m.on_decision(true);
    m.on_frame(&SendRequest::ChunkHeader(ChunkHeader { size: 11 }));
    match m.on_data(11) {
        DataOutcome::Abort(e) => assert_eq!(e, SendError::Oversize),
        _ => panic!("overflow must abort"),
    }
}

#[test]
fn second_offer_mid_stream_aborts() {
    let mut m = Receiver::new();
    m.on_first_frame(offer("f", 10));
    m.on_decision(true);
    match m.on_frame(&offer("g", 5)) {
        FrameOutcome::Abort(e) => assert_eq!(e, SendError::InvalidChunk),
        _ => panic!("a second offer must abort"),
    }
}

#[test]
fn close_codes_are_stable() {
    assert_eq!(SendError::Recv.to_close_code(), "RECV_ERR");
    assert_eq!(SendError::Send.to_close_code(), "SEND_ERR");
    assert_eq!(SendError::WriteFile.to_close_code(), "WRITE_ERR");
    assert_eq!(SendError::Recv.describe(), "Failed to receive request");
    assert_eq!(SendError::InvalidChunk.describe(), "Invalid chunk");
}

#[test]
fn sender_covers_file_in_ceil_chunks() {
    // 10 MiB: 40 full chunks of 256 KiB.
    let size: u64 = 10 * 1024 * 1024;
    let mut s = Sender::new(size);
    let mut total: u64 = 0;
    let mut chunks: u64 = 0;
    let mut finishes: u64 = 0;
    loop {
        match s.next_step() {
            SendStep::Chunk { len } => {
                assert!(len <= CHUNK_SIZE);
                assert!(len > 0);
                total += len as u64;
                chunks += 1;
            }
            SendStep::Finish => {
                finishes += 1;
                break;
            }
        }
    }
    assert_eq!(total, size);
    assert_eq!(chunks, (size + CHUNK_SIZE as u64 - 1) / CHUNK_SIZE as u64);
    assert_eq!(finishes, 1);
}

#[test]
fn sender_with_remainder_chunk() {
    let size: u64 = CHUNK_SIZE as u64 + 100;
    let mut s = Sender::new(size);
    assert!(matches!(s.next_step(), SendStep::Chunk { len } if len == CHUNK_SIZE));
    assert!(matches!(s.next_step(), SendStep::Chunk { len } if len == 100));
    assert!(matches!(s.next_step(), SendStep::Finish));
}

#[test]
fn sender_of_empty_file_sends_only_finish() {
    let mut s = Sender::new(0);
    assert!(matches!(s.next_step(), SendStep::Finish));
}

#[test]
fn offer_and_done_replies_classify() {
    assert!(matches!(check_offer_reply(&SendResponse::Accept), OfferReplyCheck::Proceed));
    assert!(matches!(check_offer_reply(&SendResponse::Reject), OfferReplyCheck::RejectedByPeer));
    assert!(matches!(check_offer_reply(&SendResponse::Done), OfferReplyCheck::Unexpected));
    assert!(matches!(check_done_reply(SendResponse::Done), DoneReplyCheck::Completed));
    assert!(matches!(
        check_done_reply(SendResponse::Error(String::from("boom"))),
        DoneReplyCheck::PeerError(e) if e == "boom"
    ));
    assert!(matches!(check_done_reply(SendResponse::Accept), DoneReplyCheck::Unexpected));
}

/// Drives a whole transfer in memory, frames crossing through the codec:
/// the received file equals the sent one, progress never decreases.
#[test]
fn in_memory_transfer_is_byte_identical() {
    let size: u64 = 3 * CHUNK_SIZE as u64 + 12345;
    let mut source: Vec<u8> = Vec::with_capacity(size as usize);
    let mut state: u64 = 0x1234_5678;
    for _ in 0..size {
        state = state.wrapping_mul(6364136223846793005).wrapping_add(1442695040888963407);
        source.push((state >> 56) as u8);
    }

    let mut sender = Sender::new(size);
    let mut receiver = Receiver::new();

    // Offer crosses the wire.
    let offer_frame = offer("x", size).encode();
    let got = SendRequest::decode(&offer_frame).expect("offer decodes");
    assert!(matches!(receiver.on_first_frame(got), OfferOutcome::Authorize));
    assert!(matches!(receiver.on_decision(true), DecisionOutcome::Accepted));

    let mut sink: Vec<u8> = Vec::new();
    let mut last_offset: u64 = 0;
    loop {
        match sender.next_step() {
            SendStep::Chunk { len } => {
                let start = sink.len();
                let header = SendRequest::ChunkHeader(ChunkHeader { size: len as u32 }).encode();
                let msg = SendRequest::decode(&header).expect("header decodes");
                match receiver.on_frame(&msg) {
                    FrameOutcome::ExpectData { len: expect } => assert_eq!(expect as usize, len),
                    _ => panic!("header must announce data"),
                }
                let data = &source[start..start + len];
                match receiver.on_data(data.len()) {
                    DataOutcome::Write { offset, size: sz } => {
                        sink.extend_from_slice(data);
                        assert!(offset >= last_offset);
                        assert_eq!(sz, size);
                        last_offset = offset;
                    }
                    _ => panic!("chunk of announced length must be written"),
                }
            }
            SendStep::Finish => {
                let fin = SendRequest::Finish.encode();
                let msg = SendRequest::decode(&fin).expect("finish decodes");
                assert!(matches!(receiver.on_frame(&msg), FrameOutcome::Complete));
                break;
            }
        }
    }
    assert_eq!(sink.len() as u64, size);
    assert_eq!(sink, source);
    assert_eq!(last_offset, size);
}

#[test]
fn recv_failure_before_any_data_is_a_recv_error() {
    let mut m = Receiver::new();
    assert_eq!(m.on_recv_error(), SendError::Recv);
    assert_eq!(m.phase, RecvPhase::Failed);
    assert_eq!(SendError::Recv.to_close_code(), "RECV_ERR");
}

#[test]
fn stream_end_while_awaiting_data_is_an_invalid_chunk() {
    let mut m = Receiver::new();
    assert!(matches!(m.on_first_frame(offer("x", 10)), OfferOutcome::Authorize));
    assert!(matches!(m.on_decision(true), DecisionOutcome::Accepted));
    // A header announced ten bytes; the stream ends instead of the frame.
    assert!(matches!(
        m.on_frame(&SendRequest::ChunkHeader(ChunkHeader { size: 10 })),
        FrameOutcome::ExpectData { len: 10 }
    ));
    assert_eq!(m.on_recv_error(), SendError::InvalidChunk);
    assert_eq!(m.phase, RecvPhase::Failed);
    assert_eq!(SendError::InvalidChunk.to_close_code(), "INV_CHUNK");
}

#[test]
fn unknown_peer_offer_gets_no_path() {
    let config = Config::fresh(vec![1; 32]);
    let transfer = TransferState::new(String::from("/tmp"));
    // Peer 5 is unknown: no path, so the acceptor answers Reject and never
    // creates a file.
    assert!(transfer.incoming_offer(&config, &id_of(5)).is_none());
    let mut m = Receiver::new();
    m.on_first_frame(offer("x", 10));
    assert!(matches!(m.on_decision(false), DecisionOutcome::Rejected));
}

#[test]
fn known_peer_offer_gets_fresh_paths() {
    let mut config = Config::fresh(vec![1; 32]);
    config.register_peer(Peer { name: String::from("A"), id: id_of(5) });
    let transfer = TransferState::new(String::from("/tmp"));
    let p1 = transfer.incoming_offer(&config, &id_of(5)).expect("known peer is allowed");
    let p2 = transfer.incoming_offer(&config, &id_of(5)).expect("known peer is allowed");
    let id_hex: String = std::iter::repeat("05").take(32).collect();
    assert!(p1.starts_with(&format!("/tmp/recv_{}_", id_hex)));
    assert!(p1.ends_with(".tmp"));
    // The 64 hex digest characters sit between the underscore and the suffix.
    let digest = &p1[format!("/tmp/recv_{}_", id_hex).len()..p1.len() - 4];
    assert_eq!(digest.len(), 64);
    assert!(digest.chars().all(|c| c.is_ascii_hexdigit()));
    // A fresh random token each time: two offers never share a path.
    assert_ne!(p1, p2);
}

#[test]
fn download_status_resolves_names_and_caches() {
    let mut config = Config::fresh(vec![1; 32]);
    config.register_peer(Peer { name: String::from("Alice"), id: id_of(5) });
    let mut transfer = TransferState::new(String::from("/tmp"));

    let ev = DownloadStatus {
        peer: id_of(5),
        file_name: String::from("photo.jpg"),
        status: FileStatus::Progress { offset: 1, size: 2 },
    };
    let out = transfer.download_status(&config, ev);
    assert_eq!(out.peer_name, "Alice");
    assert_eq!(out.file_name, "photo.jpg");
    assert!(matches!(out.event, InboundFileStatus::Progress { offset: 1, size: 2 }));
    assert_eq!(transfer.peer_names.len(), 1);

    // The second event for the same peer answers from the cache.
    let ev2 = DownloadStatus {
        peer: id_of(5),
        file_name: String::new(),
        status: FileStatus::Error(String::from("boom")),
    };
    let out2 = transfer.download_status(&config, ev2);
    assert_eq!(out2.peer_name, "Alice");
    assert_eq!(out2.file_name, "Unknown file");
    assert!(matches!(out2.event, InboundFileStatus::Error(e) if e == "boom"));
    assert_eq!(transfer.peer_names.len(), 1);

    // An unknown peer reads "Unknown peer".
    let ev3 = DownloadStatus {
        peer: id_of(6),
        file_name: String::from("x"),
        status: FileStatus::Done {
            offer: Offer { name: String::from("x"), size: 0 },
            path: String::from("/tmp/recv.tmp"),
        },
    };
    let out3 = transfer.download_status(&config, ev3);
    assert_eq!(out3.peer_name, "Unknown peer");
    assert_eq!(out3.file_name, "x");
    assert!(matches!(out3.event, InboundFileStatus::Done { path, name }
        if path == "/tmp/recv.tmp" && name == "x"));
}
