//! Per-peer background tasks (keepalive loops, path observers) are tracked
//! by owner so each peer has at most one: starts are idempotent.

use vstd::prelude::*;
use crate::identity::EndpointId;

verus! {

/// The identifiers a task list holds.
pub open spec fn task_ids(s: Seq<EndpointId>) -> Seq<Seq<u8>> {
    Seq::new(s.len(), |i: int| s[i]@)
}

/// Some task runs for this identifier.
pub open spec fn task_running(ids: Seq<Seq<u8>>, id: Seq<u8>) -> bool {
    exists|i: int| 0 <= i < ids.len() && ids[i] == id
}

/// No two tasks serve the same identifier.
pub open spec fn tasks_unique(ids: Seq<Seq<u8>>) -> bool {
    forall|i: int, j: int| 0 <= i < j < ids.len() ==> ids[i] != ids[j]
}

/// The set of peers with a running per-peer task.
pub struct TaskSet {
    pub running: Vec<EndpointId>,
}

impl TaskSet {
    pub open spec fn ids(&self) -> Seq<Seq<u8>> {
        task_ids(self.running@)
    }

    pub open spec fn wf(&self) -> bool {
        tasks_unique(self.ids())
    }

    /// No tasks yet.
    pub fn new() -> (r: Self)
        ensures
            r.ids() =~= Seq::<Seq<u8>>::empty(),
            r.wf(),
    {
        let r = TaskSet { running: Vec::new() };
        proof {
            assert(r.ids() =~= Seq::<Seq<u8>>::empty());
        }
        r
    }

    /// Whether a task already serves this peer.
    pub fn is_running(&self, peer: &EndpointId) -> (r: bool)
        ensures
            r == task_running(self.ids(), peer@),
    {
        let mut i: usize = 0;
        while i < self.running.len()
            invariant
                i <= self.running@.len(),
                forall|k: int| 0 <= k < i ==> task_ids(self.running@)[k] != peer@,
            decreases self.running@.len() - i,
        {
            if self.running[i].same_as(peer) {
                proof {
                    assert(task_ids(self.running@)[i as int] == peer@);
                }
                return true;
            }
            i = i + 1;
        }
        false
    }

    /// Claims the task for this peer: true exactly when none ran yet, in
    /// which case the caller spawns it. A second start is a no-op, so each
    /// peer keeps at most one task.
    pub fn start(&mut self, peer: EndpointId) -> (started: bool)
        requires
            old(self).wf(),
        ensures
            final(self).wf(),
            started <==> !task_running(old(self).ids(), peer@),
            started ==> final(self).ids() == old(self).ids().push(peer@),
            !started ==> *final(self) == *old(self),
            task_running(final(self).ids(), peer@),
    {
        if self.is_running(&peer) {
            return false;
        }
        let ghost before = self.ids();
        self.running.push(peer);
        proof {
            assert(self.ids() =~= before.push(peer@)) by {
                assert forall|k: int| 0 <= k < before.len() + 1 implies self.ids()[k]
                    == before.push(peer@)[k] by {
                    if k < before.len() {
                        assert(self.ids()[k] == before[k]);
                    }
                }
            }
            assert(self.ids()[before.len() as int] == peer@);
            assert(tasks_unique(self.ids())) by {
                assert forall|i: int, j: int| 0 <= i < j < self.ids().len() implies self.ids()[i]
                    != self.ids()[j] by {
                    if j == before.len() {
                        assert(self.ids()[i] == before[i]);
                    }
                }
            }
        }
        true
    }
}

} // verus!
