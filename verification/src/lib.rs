//! Peer-to-peer file transfer core: wire codecs, protocol state machines,
//! peer-list and configuration logic, with machine-checked contracts.
//!
//! The networking itself (QUIC endpoints, streams, timers) lives outside this
//! library; callers feed decoded frames and events in and carry the returned
//! actions out.

pub mod config;
pub mod frame;
pub mod hex;
pub mod quality;
pub mod service;
pub mod storage;
pub mod tasks;
pub mod ticket;
pub mod transfer;
pub mod identity;
pub mod keepalive;
pub mod pair;
pub mod pairing;
pub mod promise;
pub mod receiver;
pub mod send;
pub mod sender;
pub mod ui;
pub mod wire;
