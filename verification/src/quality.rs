//! Connection quality: classifying a connection's selected network path and
//! publishing per-peer quality updates.

use vstd::prelude::*;

verus! {

/// What the core reads of one network path: whether the transport selected
/// it, whether it is a direct address rather than a relay, and its measured
/// round-trip time in milliseconds.
#[derive(PartialEq, Eq, Structural, Clone, Copy, Debug)]
pub struct PathInfo {
    pub selected: bool,
    pub direct: bool,
    pub rtt_ms: u64,
}

/// A peer's connection quality, as shown to the UI.
#[derive(PartialEq, Eq, Structural, Clone, Copy, Debug)]
pub enum ConnQuality {
    /// A direct path is selected, with this latency.
    Direct { latency_ms: u64 },
    /// A relayed path is selected, with this latency.
    Relay { latency_ms: u64 },
    /// No path is selected: the peer is unreachable.
    NoPath,
}

/// The first selected path of an observation, if any.
pub open spec fn first_selected(paths: Seq<PathInfo>) -> Option<PathInfo>
    decreases paths.len(),
{
    if paths.len() == 0 {
        Option::None
    } else if paths[0].selected {
        Option::Some(paths[0])
    } else {
        first_selected(paths.drop_first())
    }
}

/// The quality one path observation means.
pub open spec fn spec_classify(paths: Seq<PathInfo>) -> ConnQuality {
    match first_selected(paths) {
        Option::Some(p) => if p.direct {
            ConnQuality::Direct { latency_ms: p.rtt_ms }
        } else {
            ConnQuality::Relay { latency_ms: p.rtt_ms }
        },
        Option::None => ConnQuality::NoPath,
    }
}

/// Recursive search matching `first_selected` from position `i`.
fn find_selected(paths: &Vec<PathInfo>, i: usize) -> (r: Option<PathInfo>)
    requires
        i <= paths@.len(),
    ensures
        r == first_selected(paths@.skip(i as int)),
    decreases paths@.len() - i,
{
    if i == paths.len() {
        proof {
            assert(paths@.skip(i as int) =~= Seq::<PathInfo>::empty());
        }
        return None;
    }
    proof {
        assert(paths@.skip(i as int)[0] == paths@[i as int]);
        assert(paths@.skip(i as int).drop_first() =~= paths@.skip(i + 1));
    }
    if paths[i].selected {
        Some(paths[i])
    } else {
        find_selected(paths, i + 1)
    }
}

/// Classifies one observation of a connection's path set: the first selected
/// path decides, direct before relay, and no selected path means the peer is
/// unreachable.
pub fn classify_paths(paths: &Vec<PathInfo>) -> (q: ConnQuality)
    ensures
        q == spec_classify(paths@),
{
    proof {
        assert(paths@.skip(0) =~= paths@);
    }
    match find_selected(paths, 0) {
        Some(p) => {
            if p.direct {
                ConnQuality::Direct { latency_ms: p.rtt_ms }
            } else {
                ConnQuality::Relay { latency_ms: p.rtt_ms }
            }
        },
        None => ConnQuality::NoPath,
    }
}

/// One per-peer quality update, as published to the UI.
pub struct ConnQualityUpdate {
    pub peer: String,
    pub quality: ConnQuality,
}

/// Shapes the update one path observation publishes for a peer.
pub fn quality_update_for(peer: &crate::identity::EndpointId, paths: &Vec<PathInfo>) -> (r:
    ConnQualityUpdate)
    ensures
        r.peer@ == crate::hex::hex_of(peer@),
        r.quality == spec_classify(paths@),
{
    ConnQualityUpdate { peer: peer.to_hex(), quality: classify_paths(paths) }
}

} // verus!
