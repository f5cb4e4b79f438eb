//! The supervisor: owner of the child subsystems, routing the UI's flat
//! request surface to them. The QUIC endpoint, the protocol acceptors and
//! the sinks live with the caller; the supervisor owns the state their
//! decisions read and write.

use vstd::prelude::*;
use crate::config::ConfigManager;
use crate::config::ConfigReply;
use crate::config::ConfigRequest;
use crate::config::Peer;
use crate::config::peers_view;
use crate::pairing::PairingState;
use crate::tasks::TaskSet;
use crate::transfer::TransferState;

verus! {

/// A request from the UI.
pub enum UIRequest {
    /// Install the inbound-pair sink (held by the caller).
    PairingSubscription,
    /// Install the inbound-file sink (held by the caller).
    FileSubscription,
    /// Install the connection-quality sink (held by the caller).
    ConnQualitySubscription,
    GetTargetDir,
    SetTargetDir(String),
    GetLocalAddr,
    GetPeers,
    SetDeviceName(String),
    GetDeviceName,
    GetSecret,
}

/// The supervisor's answer.
pub enum UIResponse {
    GetLocalAddr(String),
    GetPeers(Vec<Peer>),
    GetTargetDir(Option<String>),
    GetDeviceName(String),
    Secret(Vec<u8>),
    Ack,
}

/// The supervisor's state: the configuration store, the pairing subsystem,
/// the transfer subsystem, the two per-peer task sets, and the endpoint's
/// published address.
pub struct AppSupervisor {
    pub config: ConfigManager,
    pub pairing: PairingState,
    pub transfer: TransferState,
    pub keepalive_tasks: TaskSet,
    pub quality_tasks: TaskSet,
    pub local_addr: String,
}

impl AppSupervisor {
    /// Boots the supervisor around a loaded configuration store: a fresh
    /// pairing secret, a transfer subsystem over `temp_dir`, no running
    /// per-peer tasks.
    pub fn new(config: ConfigManager, temp_dir: String, local_addr: String) -> (r: Self)
        ensures
            r.config@ == config@,
            r.pairing.wf(),
            !r.pairing.sink_installed,
            r.transfer.temp_dir@ == temp_dir@,
            r.keepalive_tasks.wf(),
            r.quality_tasks.wf(),
            r.local_addr@ == local_addr@,
    {
        AppSupervisor {
            config,
            pairing: PairingState::new(),
            transfer: TransferState::new(temp_dir),
            keepalive_tasks: TaskSet::new(),
            quality_tasks: TaskSet::new(),
            local_addr,
        }
    }

    /// Serves one UI request, routing it to the subsystem that owns the
    /// answer. The second part of the result tells the caller to rewrite the
    /// stored document; it is set exactly for the mutating requests.
    pub fn handle_ui_request(&mut self, req: UIRequest) -> (r: (UIResponse, bool))
        ensures
            ({
                let pre = *old(self);
                let post = *final(self);
                &&& post.pairing.active_secret == pre.pairing.active_secret
                &&& post.pairing.sink_installed == (pre.pairing.sink_installed
                    || req is PairingSubscription)
                &&& post.transfer == pre.transfer
                &&& post.keepalive_tasks == pre.keepalive_tasks
                &&& post.quality_tasks == pre.quality_tasks
                &&& post.local_addr == pre.local_addr
                &&& match req {
                    UIRequest::PairingSubscription => post.config@ == pre.config@ && !r.1
                        && r.0 is Ack,
                    UIRequest::FileSubscription => post.config@ == pre.config@ && !r.1
                        && r.0 is Ack,
                    UIRequest::ConnQualitySubscription => post.config@ == pre.config@ && !r.1
                        && r.0 is Ack,
                    UIRequest::GetTargetDir => post.config@ == pre.config@ && !r.1 && (
                    r.0 matches UIResponse::GetTargetDir(d) && (match d {
                        Some(d) => pre.config@.config.target_dir == Option::Some(d@),
                        None => pre.config@.config.target_dir is None,
                    })),
                    UIRequest::SetTargetDir(p) => r.1 && r.0 is Ack && post.config@.path
                        == pre.config@.path && post.config@.config.key == pre.config@.config.key
                        && post.config@.config.name == pre.config@.config.name
                        && post.config@.config.peers == pre.config@.config.peers
                        && post.config@.config.target_dir == Option::Some(p@),
                    UIRequest::GetLocalAddr => post.config@ == pre.config@ && !r.1 && (
                    r.0 matches UIResponse::GetLocalAddr(a) && a@ == pre.local_addr@),
                    UIRequest::GetPeers => post.config@ == pre.config@ && !r.1 && (
                    r.0 matches UIResponse::GetPeers(v) && peers_view(v@)
                        == pre.config@.config.peers),
                    UIRequest::SetDeviceName(n) => r.1 && r.0 is Ack && post.config@.path
                        == pre.config@.path && post.config@.config.key == pre.config@.config.key
                        && post.config@.config.peers == pre.config@.config.peers
                        && post.config@.config.target_dir == pre.config@.config.target_dir
                        && post.config@.config.name == n@,
                    UIRequest::GetDeviceName => post.config@ == pre.config@ && !r.1 && (
                    r.0 matches UIResponse::GetDeviceName(n) && n@ == pre.config@.config.name),
                    UIRequest::GetSecret => post.config@ == pre.config@ && !r.1 && (
                    r.0 matches UIResponse::Secret(s) && s@ == pre.pairing.active_secret@),
                }
            }),
    {
        match req {
            UIRequest::PairingSubscription => {
                self.pairing.install_sink();
                (UIResponse::Ack, false)
            },
            UIRequest::FileSubscription => (UIResponse::Ack, false),
            UIRequest::ConnQualitySubscription => (UIResponse::Ack, false),
            UIRequest::GetTargetDir => {
                let (reply, persist) = self.config.handle_request(ConfigRequest::GetTargetDir);
                match reply {
                    ConfigReply::TargetDir(d) => (UIResponse::GetTargetDir(d), persist),
                    _ => (UIResponse::Ack, persist),
                }
            },
            UIRequest::SetTargetDir(p) => {
                let (_reply, persist) = self.config.handle_request(ConfigRequest::SetTargetDir(p));
                (UIResponse::Ack, persist)
            },
            UIRequest::GetLocalAddr => (UIResponse::GetLocalAddr(self.local_addr.clone()), false),
            UIRequest::GetPeers => {
                let (reply, persist) = self.config.handle_request(ConfigRequest::GetPeers);
                match reply {
                    ConfigReply::Peers(v) => (UIResponse::GetPeers(v), persist),
                    _ => (UIResponse::Ack, persist),
                }
            },
            UIRequest::SetDeviceName(n) => {
                let (_reply, persist) = self.config.handle_request(ConfigRequest::SetDeviceName(n));
                (UIResponse::Ack, persist)
            },
            UIRequest::GetDeviceName => {
                let (reply, persist) = self.config.handle_request(ConfigRequest::GetDeviceName);
                match reply {
                    ConfigReply::DeviceName(n) => (UIResponse::GetDeviceName(n), persist),
                    _ => (UIResponse::Ack, persist),
                }
            },
            UIRequest::GetSecret => (UIResponse::Secret(self.pairing.current_secret()), false),
        }
    }
}

} // verus!
