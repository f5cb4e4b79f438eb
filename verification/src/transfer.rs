//! The transfer subsystem: authorizes inbound offers, picks the temporary
//! download path, and shapes transfer events for the UI, caching peer names
//! for display.

use vstd::prelude::*;
use crate::config::Config;
use crate::config::peer_known;
use crate::hex::hex_of;
use crate::identity::EndpointId;
use crate::send::Offer;
use crate::ui::InboundFileEvent;
use crate::ui::InboundFileStatus;

verus! {

/// The hex digest of one random download token. Stands for what
/// `blake3::hash` returns on the token's big-endian bytes; a fixed function
/// of the token alone.
pub uninterp spec fn token_digest_hex(x: u128) -> Seq<char>;

/// Relies on `blake3::hash` and `Hash::to_hex`: a 32-byte digest of the
/// token's big-endian bytes alone, spelled as 64 lowercase hex characters.
#[verifier::external_body]
fn hash_token(x: u128) -> (r: String)
    ensures
        r@ == token_digest_hex(x),
        r@.len() == 64,
{
    let digest = blake3::hash(&x.to_be_bytes());
    digest.to_hex().as_str().to_string()
}

/// The on-disk name for one inbound transfer: the receiving directory, the
/// sender's identifier, and the download token's digest.
pub fn temp_path_for(temp_dir: &String, peer: &EndpointId, token_hex: &String) -> (r: String)
    ensures
        r@ == temp_dir@ + "/recv_"@ + hex_of(peer@) + "_"@ + token_hex@ + ".tmp"@,
{
    let mut s = temp_dir.clone();
    s.append("/recv_");
    let peer_hex = peer.to_hex();
    s.append(peer_hex.as_str());
    s.append("_");
    s.append(token_hex.as_str());
    s.append(".tmp");
    s
}

/// One remembered peer name, for display without a store round trip.
pub struct CacheEntry {
    pub id: EndpointId,
    pub name: String,
}

/// The mathematical shape of a cache entry.
pub struct CacheEntryV {
    pub id: Seq<u8>,
    pub name: Seq<char>,
}

impl View for CacheEntry {
    type V = CacheEntryV;

    open spec fn view(&self) -> CacheEntryV {
        CacheEntryV { id: self.id@, name: self.name@ }
    }
}

/// The cache entries a vector holds, as mathematical values.
pub open spec fn cache_view(entries: Seq<CacheEntry>) -> Seq<CacheEntryV> {
    Seq::new(entries.len(), |i: int| entries[i]@)
}

/// The first remembered name for an identifier.
pub open spec fn cache_lookup(entries: Seq<CacheEntryV>, id: Seq<u8>) -> Option<Seq<char>>
    decreases entries.len(),
{
    if entries.len() == 0 {
        Option::None
    } else if entries[0].id == id {
        Option::Some(entries[0].name)
    } else {
        cache_lookup(entries.drop_first(), id)
    }
}

/// Recursive search matching `cache_lookup` from position `i`.
fn cache_find(entries: &Vec<CacheEntry>, i: usize, id: &EndpointId) -> (r: Option<String>)
    requires
        i <= entries@.len(),
    ensures
        match r {
            Some(n) => cache_lookup(cache_view(entries@).skip(i as int), id@) == Option::Some(n@),
            None => cache_lookup(cache_view(entries@).skip(i as int), id@) is None,
        },
    decreases entries@.len() - i,
{
    if i == entries.len() {
        proof {
            assert(cache_view(entries@).skip(i as int) =~= Seq::<CacheEntryV>::empty());
        }
        return None;
    }
    proof {
        assert(cache_view(entries@).skip(i as int)[0] == entries@[i as int]@);
        assert(cache_view(entries@).skip(i as int).drop_first() =~= cache_view(entries@).skip(
            i + 1,
        ));
    }
    if entries[i].id.same_as(id) {
        Some(entries[i].name.clone())
    } else {
        cache_find(entries, i + 1, id)
    }
}

/// The transfer subsystem's own state: the directory inbound files land in,
/// and the display-name cache.
pub struct TransferState {
    pub temp_dir: String,
    pub peer_names: Vec<CacheEntry>,
}

impl TransferState {
    /// A fresh subsystem writing under `temp_dir`, with an empty cache.
    pub fn new(temp_dir: String) -> (r: Self)
        ensures
            r.temp_dir@ == temp_dir@,
            cache_view(r.peer_names@) =~= Seq::<CacheEntryV>::empty(),
    {
        TransferState { temp_dir, peer_names: Vec::new() }
    }

    /// Decides an inbound offer: a known peer gets a fresh unique path under
    /// the receiving directory; an unknown peer gets nothing, so the
    /// connection answers `Reject` and no file is created.
    pub fn incoming_offer(&self, config: &Config, from: &EndpointId) -> (r: Option<String>)
        ensures
            r is Some <==> peer_known(config@.peers, from@),
            r matches Some(p) ==> exists|t: u128|
                p@ == self.temp_dir@ + "/recv_"@ + hex_of(from@) + "_"@ + #[trigger] token_digest_hex(
                    t,
                ) + ".tmp"@,
    {
        if !config.is_peer_known(from) {
            return None;
        }
        let token: u128 = rand::random();
        let digest = hash_token(token);
        let path = temp_path_for(&self.temp_dir, from, &digest);
        proof {
            assert(path@ == self.temp_dir@ + "/recv_"@ + hex_of(from@) + "_"@ + token_digest_hex(
                token,
            ) + ".tmp"@);
        }
        Some(path)
    }

    /// Shapes one inbound transfer event for the UI: the peer's display name
    /// comes from the cache, else from the stored peer list (remembering it),
    /// else reads "Unknown peer"; an empty file name reads "Unknown file".
    pub fn download_status(&mut self, config: &Config, ev: DownloadStatus) -> (r: InboundFileEvent)
        ensures
            r.peer@ == hex_of(ev.peer@),
            ({
                let cached = cache_lookup(cache_view(old(self).peer_names@), ev.peer@);
                match cached {
                    Option::Some(n) => r.peer_name@ == n && final(self).peer_names
                        == old(self).peer_names && final(self).temp_dir == old(self).temp_dir,
                    Option::None => (if peer_known(config@.peers, ev.peer@) {
                        exists|j: int|
                            0 <= j < config@.peers.len() && config@.peers[j].id == ev.peer@
                                && r.peer_name@ == config@.peers[j].name
                    } else {
                        r.peer_name@ == "Unknown peer"@
                    }) && cache_view(final(self).peer_names@) == cache_view(
                        old(self).peer_names@,
                    ).push(CacheEntryV { id: ev.peer@, name: r.peer_name@ })
                        && final(self).temp_dir == old(self).temp_dir,
                }
            }),
            match ev.status {
                FileStatus::Progress { offset, size } => r.file_name@ == (if ev.file_name@.len()
                    == 0 {
                    "Unknown file"@
                } else {
                    ev.file_name@
                }) && (r.event matches InboundFileStatus::Progress { offset: o, size: s } && o
                    == offset && s == size),
                FileStatus::Done { offer, path } => r.file_name@ == offer@.name && (
                r.event matches InboundFileStatus::Done { path: p, name: n } && p@ == path@ && n@
                    == offer@.name),
                FileStatus::Error(e) => r.file_name@ == (if ev.file_name@.len() == 0 {
                    "Unknown file"@
                } else {
                    ev.file_name@
                }) && (r.event matches InboundFileStatus::Error(e2) && e2@ == e@),
            },
    {
        let peer_name = match cache_find(&self.peer_names, 0, &ev.peer) {
            Some(n) => {
                proof {
                    assert(cache_view(self.peer_names@).skip(0) =~= cache_view(self.peer_names@));
                }
                n
            },
            None => {
                proof {
                    assert(cache_view(self.peer_names@).skip(0) =~= cache_view(self.peer_names@));
                }
                let name = match config.get_peer_name(&ev.peer) {
                    Some(n) => n,
                    None => String::from_str("Unknown peer"),
                };
                let ghost before = cache_view(self.peer_names@);
                self.peer_names.push(CacheEntry { id: ev.peer.clone(), name: name.clone() });
                proof {
                    assert(cache_view(self.peer_names@) =~= before.push(
                        CacheEntryV { id: ev.peer@, name: name@ },
                    )) by {
                        assert forall|k: int| 0 <= k < before.len() + 1 implies cache_view(
                            self.peer_names@,
                        )[k] == before.push(CacheEntryV { id: ev.peer@, name: name@ })[k] by {
                            if k < before.len() {
                                assert(cache_view(self.peer_names@)[k] == before[k]);
                            }
                        }
                    }
                }
                name
            },
        };
        let peer_hex = ev.peer.to_hex();
        let file_name = if ev.file_name.as_str().unicode_len() == 0 {
            String::from_str("Unknown file")
        } else {
            ev.file_name.clone()
        };
        match ev.status {
            FileStatus::Progress { offset, size } => InboundFileEvent {
                peer: peer_hex,
                peer_name,
                file_name,
                event: InboundFileStatus::Progress { offset, size },
            },
            FileStatus::Done { offer, path } => InboundFileEvent {
                peer: peer_hex,
                peer_name,
                file_name: offer.name.clone(),
                event: InboundFileStatus::Done { path, name: offer.name },
            },
            FileStatus::Error(e) => InboundFileEvent {
                peer: peer_hex,
                peer_name,
                file_name,
                event: InboundFileStatus::Error(e),
            },
        }
    }
}

/// One inbound transfer's progress report, as the receive loop emits it.
pub struct DownloadStatus {
    pub peer: EndpointId,
    pub file_name: String,
    pub status: FileStatus,
}

/// The state an inbound transfer reports.
pub enum FileStatus {
    Progress { offset: u64, size: u64 },
    Done { offer: Offer, path: String },
    Error(String),
}

} // verus!
