//! The durable configuration: identity key, device name, download directory,
//! and the peer list, with the store's request surface.
//!
//! The peer list is a set keyed by identifier: registering a known id updates
//! its name in place and never grows the list; registering a new id appends.
//! Reading and writing the document on disk is the caller's part; rendering
//! and parsing it is in `storage`.

use vstd::prelude::*;
use crate::identity::EndpointId;
use crate::identity::bytes_clone;

verus! {

/// Bytes in the identity secret key.
pub const KEY_LEN: usize = 32;

/// Device name used before the user picks one.
pub fn default_device_name() -> (r: String)
    ensures
        r@ == "Unnamed"@,
{
    String::from_str("Unnamed")
}

/// A paired device: its identifier and the name it introduced itself with.
pub struct Peer {
    pub name: String,
    pub id: EndpointId,
}

/// The mathematical shape of a peer record.
pub struct PeerV {
    pub name: Seq<char>,
    pub id: Seq<u8>,
}

impl View for Peer {
    type V = PeerV;

    open spec fn view(&self) -> PeerV {
        PeerV { name: self.name@, id: self.id@ }
    }
}

impl Clone for Peer {
    /// Copies the record.
    fn clone(&self) -> (r: Self)
        ensures
            r@ == self@,
    {
        Peer { name: self.name.clone(), id: self.id.clone() }
    }
}

/// The peer records a vector holds, as mathematical values.
pub open spec fn peers_view(peers: Seq<Peer>) -> Seq<PeerV> {
    Seq::new(peers.len(), |i: int| peers[i]@)
}

/// Some record carries this identifier.
pub open spec fn peer_known(peers: Seq<PeerV>, id: Seq<u8>) -> bool {
    exists|i: int| 0 <= i < peers.len() && peers[i].id == id
}

/// No two records carry the same identifier.
pub open spec fn peers_unique(peers: Seq<PeerV>) -> bool {
    forall|i: int, j: int| 0 <= i < j < peers.len() ==> peers[i].id != peers[j].id
}

/// Registration as a mathematical function: replace the first record with
/// the same identifier, or append.
pub open spec fn spec_register(peers: Seq<PeerV>, p: PeerV) -> Seq<PeerV>
    decreases peers.len(),
{
    if peers.len() == 0 {
        seq![p]
    } else if peers[0].id == p.id {
        seq![p] + peers.drop_first()
    } else {
        seq![peers[0]] + spec_register(peers.drop_first(), p)
    }
}

/// When the identifier is at position `j` (and nowhere earlier),
/// registration updates exactly that record.
pub proof fn lemma_register_known(peers: Seq<PeerV>, p: PeerV, j: int)
    requires
        0 <= j < peers.len(),
        peers[j].id == p.id,
        forall|k: int| 0 <= k < j ==> peers[k].id != p.id,
    ensures
        spec_register(peers, p) == peers.update(j, p),
    decreases peers.len(),
{
    if j == 0 {
        assert(spec_register(peers, p) =~= peers.update(0, p));
    } else {
        lemma_register_known(peers.drop_first(), p, j - 1);
        assert(peers.drop_first().update(j - 1, p) =~= peers.update(j, p).drop_first());
        assert(spec_register(peers, p) =~= peers.update(j, p));
    }
}

/// When the identifier is new, registration appends.
pub proof fn lemma_register_unknown(peers: Seq<PeerV>, p: PeerV)
    requires
        !peer_known(peers, p.id),
    ensures
        spec_register(peers, p) == peers.push(p),
    decreases peers.len(),
{
    if peers.len() == 0 {
        assert(spec_register(peers, p) =~= peers.push(p));
    } else {
        assert(peers[0].id != p.id);
        assert(!peer_known(peers.drop_first(), p.id)) by {
            if peer_known(peers.drop_first(), p.id) {
                let i = choose|i: int|
                    0 <= i < peers.drop_first().len() && peers.drop_first()[i].id == p.id;
                assert(peers[i + 1].id == p.id);
            }
        }
        lemma_register_unknown(peers.drop_first(), p);
        assert(spec_register(peers, p) =~= peers.push(p));
    }
}

/// Registration keeps identifiers unique.
pub proof fn lemma_register_preserves_unique(peers: Seq<PeerV>, p: PeerV)
    requires
        peers_unique(peers),
    ensures
        peers_unique(spec_register(peers, p)),
        spec_register(peers, p).len() == if peer_known(peers, p.id) {
            peers.len() as int
        } else {
            peers.len() + 1 as int
        },
        peer_known(spec_register(peers, p), p.id),
        forall|id: Seq<u8>| id != p.id ==> (peer_known(spec_register(peers, p), id) <==>
            peer_known(peers, id)),
{
    if peer_known(peers, p.id) {
        let j = first_match(peers, p.id);
        lemma_first_match(peers, p.id);
        lemma_register_known(peers, p, j);
        let updated = peers.update(j, p);
        assert forall|id: Seq<u8>| id != p.id implies (peer_known(updated, id) <==> peer_known(
            peers,
            id,
        )) by {
            if peer_known(updated, id) {
                let i = choose|i: int| 0 <= i < updated.len() && updated[i].id == id;
                assert(peers[i].id == id);
            }
            if peer_known(peers, id) {
                let i = choose|i: int| 0 <= i < peers.len() && peers[i].id == id;
                assert(i != j);
                assert(updated[i].id == id);
            }
        }
        assert(updated[j].id == p.id);
    } else {
        lemma_register_unknown(peers, p);
        let pushed = peers.push(p);
        assert(pushed[peers.len() as int].id == p.id);
        assert forall|id: Seq<u8>| id != p.id implies (peer_known(pushed, id) <==> peer_known(
            peers,
            id,
        )) by {
            if peer_known(pushed, id) {
                let i = choose|i: int| 0 <= i < pushed.len() && pushed[i].id == id;
                assert(i < peers.len());
                assert(peers[i].id == id);
            }
            if peer_known(peers, id) {
                let i = choose|i: int| 0 <= i < peers.len() && peers[i].id == id;
                assert(pushed[i].id == id);
            }
        }
    }
}

/// The first position carrying the identifier.
pub open spec fn first_match(peers: Seq<PeerV>, id: Seq<u8>) -> int
    decreases peers.len(),
{
    if peers.len() == 0 {
        0
    } else if peers[0].id == id {
        0
    } else {
        1 + first_match(peers.drop_first(), id)
    }
}

pub proof fn lemma_first_match(peers: Seq<PeerV>, id: Seq<u8>)
    requires
        peer_known(peers, id),
    ensures
        0 <= first_match(peers, id) < peers.len(),
        peers[first_match(peers, id)].id == id,
        forall|k: int| 0 <= k < first_match(peers, id) ==> peers[k].id != id,
    decreases peers.len(),
{
    if peers.len() > 0 && peers[0].id != id {
        assert(peer_known(peers.drop_first(), id)) by {
            let i = choose|i: int| 0 <= i < peers.len() && peers[i].id == id;
            assert(peers.drop_first()[i - 1].id == id);
        }
        lemma_first_match(peers.drop_first(), id);
        assert forall|k: int| 0 <= k < first_match(peers, id) implies peers[k].id != id by {
            if k > 0 {
                assert(peers.drop_first()[k - 1].id != id);
            }
        }
    }
}

/// Registering an id twice updates the record in place: the list holds the
/// latest name for that id and is exactly as long as after the first
/// registration.
pub proof fn lemma_register_idempotent(peers: Seq<PeerV>, p: PeerV, q: PeerV)
    requires
        peers_unique(peers),
        q.id == p.id,
    ensures
        spec_register(spec_register(peers, p), q).len() == spec_register(peers, p).len(),
        peer_known(spec_register(spec_register(peers, p), q), p.id),
        peers_unique(spec_register(spec_register(peers, p), q)),
{
    lemma_register_preserves_unique(peers, p);
    lemma_register_preserves_unique(spec_register(peers, p), q);
}

/// An accepted inbound pair starts with an unknown peer and ends with it in
/// the list under the name it introduced: membership before registration is
/// false, after it true.
pub proof fn lemma_acceptance_adds_peer(peers: Seq<PeerV>, p: PeerV)
    requires
        peers_unique(peers),
        !peer_known(peers, p.id),
    ensures
        spec_register(peers, p) == peers.push(p),
        peer_known(spec_register(peers, p), p.id),
        spec_register(peers, p)[peers.len() as int] == p,
        peers_unique(spec_register(peers, p)),
{
    lemma_register_unknown(peers, p);
    lemma_register_preserves_unique(peers, p);
}

/// The whole stored configuration.
pub struct Config {
    /// The identity secret key's bytes.
    pub key: Vec<u8>,
    /// The user-visible device name.
    pub name: String,
    /// Where completed downloads are placed, when set.
    pub target_dir: Option<String>,
    /// The paired devices.
    pub peers: Vec<Peer>,
}

/// The mathematical shape of a configuration.
pub struct ConfigV {
    pub key: Seq<u8>,
    pub name: Seq<char>,
    pub target_dir: Option<Seq<char>>,
    pub peers: Seq<PeerV>,
}

impl View for Config {
    type V = ConfigV;

    open spec fn view(&self) -> ConfigV {
        ConfigV {
            key: self.key@,
            name: self.name@,
            target_dir: match self.target_dir {
                Option::Some(ref d) => Option::Some(d@),
                Option::None => Option::None,
            },
            peers: peers_view(self.peers@),
        }
    }
}

/// A configuration the store maintains: full-length key, unique peer ids.
pub open spec fn wf_config(c: ConfigV) -> bool {
    &&& c.key.len() == KEY_LEN
    &&& peers_unique(c.peers)
}

impl Config {
    /// A first-run configuration around a fresh identity key: default name,
    /// no download directory, no peers.
    pub fn fresh(key: Vec<u8>) -> (r: Self)
        requires
            key@.len() == KEY_LEN,
        ensures
            r@.key == key@,
            r@.name == "Unnamed"@,
            r@.target_dir is None,
            r@.peers =~= Seq::<PeerV>::empty(),
            wf_config(r@),
    {
        let r = Config {
            key,
            name: default_device_name(),
            target_dir: Option::None,
            peers: Vec::new(),
        };
        proof {
            assert(r@.peers =~= Seq::<PeerV>::empty());
        }
        r
    }

    /// Whether this identifier is in the peer list.
    pub fn is_peer_known(&self, id: &EndpointId) -> (r: bool)
        ensures
            r == peer_known(self@.peers, id@),
    {
        let mut i: usize = 0;
        while i < self.peers.len()
            invariant
                i <= self.peers@.len(),
                forall|k: int| 0 <= k < i ==> peers_view(self.peers@)[k].id != id@,
            decreases self.peers@.len() - i,
        {
            if self.peers[i].id.same_as(id) {
                proof {
                    assert(peers_view(self.peers@)[i as int].id == id@);
                }
                return true;
            }
            i = i + 1;
        }
        false
    }

    /// The stored name of this peer, when it is known.
    pub fn get_peer_name(&self, id: &EndpointId) -> (r: Option<String>)
        ensures
            match r {
                Some(n) => exists|j: int|
                    0 <= j < self@.peers.len() && self@.peers[j].id == id@ && n@
                        == self@.peers[j].name,
                None => !peer_known(self@.peers, id@),
            },
    {
        let mut i: usize = 0;
        while i < self.peers.len()
            invariant
                i <= self.peers@.len(),
                forall|k: int| 0 <= k < i ==> peers_view(self.peers@)[k].id != id@,
            decreases self.peers@.len() - i,
        {
            if self.peers[i].id.same_as(id) {
                let name = self.peers[i].name.clone();
                proof {
                    assert(self@.peers[i as int].id == id@ && name@ == self@.peers[i as int].name);
                    assert(exists|j: int|
                        0 <= j < self@.peers.len() && self@.peers[j].id == id@ && name@
                            == self@.peers[j].name);
                }
                return Some(name);
            }
            i = i + 1;
        }
        None
    }

    /// A snapshot of the peer list.
    pub fn peers_snapshot(&self) -> (r: Vec<Peer>)
        ensures
            peers_view(r@) == self@.peers,
    {
        let mut out: Vec<Peer> = Vec::new();
        proof {
            assert(peers_view(out@) =~= peers_view(self.peers@).subrange(0, 0));
        }
        let mut i: usize = 0;
        while i < self.peers.len()
            invariant
                i <= self.peers@.len(),
                out@.len() == i,
                peers_view(out@) == peers_view(self.peers@).subrange(0, i as int),
            decreases self.peers@.len() - i,
        {
            let ghost prev = out@;
            out.push(self.peers[i].clone());
            proof {
                assert forall|k: int| 0 <= k < i + 1 implies peers_view(out@)[k] == peers_view(
                    self.peers@,
                ).subrange(0, i + 1)[k] by {
                    if k < i {
                        assert(peers_view(prev)[k] == peers_view(self.peers@).subrange(
                            0,
                            i as int,
                        )[k]);
                        assert(out@[k] == prev[k]);
                    }
                }
                assert(peers_view(out@) =~= peers_view(self.peers@).subrange(0, i + 1));
            }
            i = i + 1;
        }
        proof {
            assert(peers_view(self.peers@).subrange(0, self.peers@.len() as int) =~= peers_view(
                self.peers@,
            ));
            assert(peers_view(out@) == self@.peers);
        }
        out
    }

    /// Upserts a peer record by identifier: a known id gets the new name in
    /// place, a new id is appended. The rest of the configuration is
    /// untouched.
    pub fn register_peer(&mut self, peer: Peer)
        ensures
            final(self)@.key == old(self)@.key,
            final(self)@.name == old(self)@.name,
            final(self)@.target_dir == old(self)@.target_dir,
            final(self)@.peers == spec_register(old(self)@.peers, peer@),
    {
        let ghost orig = peers_view(self.peers@);
        let mut i: usize = 0;
        let n = self.peers.len();
        while i < n
            invariant
                i <= n,
                n == self.peers@.len(),
                self.key == old(self).key,
                self.name == old(self).name,
                self.target_dir == old(self).target_dir,
                self.peers == old(self).peers,
                orig == peers_view(self.peers@),
                forall|k: int| 0 <= k < i ==> peers_view(self.peers@)[k].id != peer@.id,
            decreases n - i,
        {
            if self.peers[i].id.same_as(&peer.id) {
                proof {
                    assert(peers_view(self.peers@)[i as int].id == peer@.id);
                    lemma_register_known(orig, peer@, i as int);
                }
                let ghost before = self.peers@;
                self.peers.remove(i);
                self.peers.insert(i, peer);
                proof {
                    assert(self.peers@ =~= before.update(i as int, peer));
                    assert forall|k: int| 0 <= k < orig.len() implies peers_view(self.peers@)[k]
                        == orig.update(i as int, peer@)[k] by {
                        if k != i {
                            assert(self.peers@[k] == before[k]);
                        }
                    }
                    assert(peers_view(self.peers@) =~= orig.update(i as int, peer@));
                }
                return;
            }
            i = i + 1;
        }
        proof {
            assert(!peer_known(orig, peer@.id)) by {
                if peer_known(orig, peer@.id) {
                    let k = choose|k: int| 0 <= k < orig.len() && orig[k].id == peer@.id;
                    assert(peers_view(self.peers@)[k].id == peer@.id);
                }
            }
            lemma_register_unknown(orig, peer@);
        }
        let ghost before = self.peers@;
        self.peers.push(peer);
        proof {
            assert forall|k: int| 0 <= k < orig.len() + 1 implies peers_view(self.peers@)[k]
                == orig.push(peer@)[k] by {
                if k < orig.len() {
                    assert(self.peers@[k] == before[k]);
                }
            }
            assert(peers_view(self.peers@) =~= orig.push(peer@));
        }
    }
}

/// The store around the configuration: the document's path and its current
/// in-memory value. Mutating requests update the value first and tell the
/// caller to persist; a failed write is the caller's to surface.
pub struct ConfigManager {
    /// Where the document lives on disk.
    pub path: String,
    /// The current configuration.
    pub config: Config,
}

/// The mathematical shape of the store.
pub struct ConfigManagerV {
    pub path: Seq<char>,
    pub config: ConfigV,
}

impl View for ConfigManager {
    type V = ConfigManagerV;

    open spec fn view(&self) -> ConfigManagerV {
        ConfigManagerV { path: self.path@, config: self.config@ }
    }
}

/// A request to the configuration store.
pub enum ConfigRequest {
    GetKey,
    GetPeers,
    GetPeerName(EndpointId),
    IsPeerKnown(EndpointId),
    RegisterPeer(Peer),
    GetTargetDir,
    SetTargetDir(String),
    GetDeviceName,
    SetDeviceName(String),
}

/// The store's answer.
pub enum ConfigReply {
    Key(Vec<u8>),
    Peers(Vec<Peer>),
    PeerName(Option<String>),
    IsPeerKnown(bool),
    TargetDir(Option<String>),
    DeviceName(String),
    Ack,
}

impl ConfigManager {
    /// A store over a document path and a configuration value.
    pub fn new(path: String, config: Config) -> (r: Self)
        ensures
            r@.path == path@,
            r@.config == config@,
    {
        ConfigManager { path, config }
    }

    /// Serves one request. The second part of the result tells the caller to
    /// rewrite the document; it is set exactly for the mutating requests,
    /// whose change is already applied in memory.
    pub fn handle_request(&mut self, req: ConfigRequest) -> (r: (ConfigReply, bool))
        ensures
            ({
                let pre = old(self)@;
                let post = final(self)@;
                match req {
                    ConfigRequest::GetKey => post == pre && !r.1 && (
                    r.0 matches ConfigReply::Key(k) && k@ == pre.config.key),
                    ConfigRequest::GetPeers => post == pre && !r.1 && (
                    r.0 matches ConfigReply::Peers(v) && peers_view(v@) == pre.config.peers),
                    ConfigRequest::GetPeerName(id) => post == pre && !r.1 && (
                    r.0 matches ConfigReply::PeerName(n) && (match n {
                        Some(n) => exists|j: int|
                            0 <= j < pre.config.peers.len() && pre.config.peers[j].id == id@ && n@
                                == pre.config.peers[j].name,
                        None => !peer_known(pre.config.peers, id@),
                    })),
                    ConfigRequest::IsPeerKnown(id) => post == pre && !r.1 && (
                    r.0 matches ConfigReply::IsPeerKnown(b) && b == peer_known(
                        pre.config.peers,
                        id@,
                    )),
                    ConfigRequest::RegisterPeer(p) => r.1 && r.0 is Ack && post.path == pre.path
                        && post.config.key == pre.config.key && post.config.name == pre.config.name
                        && post.config.target_dir == pre.config.target_dir && post.config.peers
                        == spec_register(pre.config.peers, p@),
                    ConfigRequest::GetTargetDir => post == pre && !r.1 && (
                    r.0 matches ConfigReply::TargetDir(d) && (match d {
                        Some(d) => pre.config.target_dir == Option::Some(d@),
                        None => pre.config.target_dir is None,
                    })),
                    ConfigRequest::SetTargetDir(p) => r.1 && r.0 is Ack && post.path == pre.path
                        && post.config.key == pre.config.key && post.config.name == pre.config.name
                        && post.config.peers == pre.config.peers && post.config.target_dir
                        == Option::Some(p@),
                    ConfigRequest::GetDeviceName => post == pre && !r.1 && (
                    r.0 matches ConfigReply::DeviceName(n) && n@ == pre.config.name),
                    ConfigRequest::SetDeviceName(n) => r.1 && r.0 is Ack && post.path == pre.path
                        && post.config.key == pre.config.key && post.config.target_dir
                        == pre.config.target_dir && post.config.peers == pre.config.peers
                        && post.config.name == n@,
                }
            }),
    {
        match req {
            ConfigRequest::GetKey => (ConfigReply::Key(bytes_clone(&self.config.key)), false),
            ConfigRequest::GetPeers => (ConfigReply::Peers(self.config.peers_snapshot()), false),
            ConfigRequest::GetPeerName(id) => {
                (ConfigReply::PeerName(self.config.get_peer_name(&id)), false)
            },
            ConfigRequest::IsPeerKnown(id) => {
                (ConfigReply::IsPeerKnown(self.config.is_peer_known(&id)), false)
            },
            ConfigRequest::RegisterPeer(p) => {
                self.config.register_peer(p);
                (ConfigReply::Ack, true)
            },
            ConfigRequest::GetTargetDir => {
                let dir = match &self.config.target_dir {
                    Some(d) => Some(d.clone()),
                    None => None,
                };
                (ConfigReply::TargetDir(dir), false)
            },
            ConfigRequest::SetTargetDir(p) => {
                self.config.target_dir = Some(p);
                (ConfigReply::Ack, true)
            },
            ConfigRequest::GetDeviceName => {
                (ConfigReply::DeviceName(self.config.name.clone()), false)
            },
            ConfigRequest::SetDeviceName(n) => {
                self.config.name = n;
                (ConfigReply::Ack, true)
            },
        }
    }
}

} // verus!
