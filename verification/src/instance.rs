//! The instance record: the central entity of the replication log.
//!
//! An instance carries the command batch a leader proposed, the ballots
//! seen for it, and three dependency vectors: the leader's proposal
//! (`initial_deps`), the provisional union after the fast phase (`deps`),
//! and the frozen vector after commit (`final_deps`). Once `committed` is
//! set, `cmds` and `final_deps` never change.

use vstd::prelude::*;

use crate::command::cmd_conflict;
use crate::command::clone_cmds;
use crate::command::Command;
use crate::command::CommandView;
use crate::deps::dep_map;
use crate::deps::iids_wf;
use crate::deps::InstanceIdVec;
use crate::ids::opt_ballot_le;
use crate::ids::BallotNum;
use crate::ids::InstanceId;
use crate::keys::key_bytes;

verus! {

/// The lifecycle phase of an instance on a replica.
#[derive(Clone, Copy, Debug, PartialEq, Eq, Structural, Hash)]
pub enum InstanceStatus {
    Empty,
    PreAccepted,
    Accepted,
    Committed,
    Executed,
}

/// An instance: a command batch with its replication state.
#[derive(Debug, PartialEq, Eq)]
pub struct Instance {
    pub instance_id: Option<InstanceId>,
    pub last_ballot: Option<BallotNum>,
    pub ballot: Option<BallotNum>,
    pub cmds: Vec<Command>,
    pub initial_deps: Option<InstanceIdVec>,
    pub deps: Option<InstanceIdVec>,
    pub final_deps: Option<InstanceIdVec>,
    pub committed: bool,
    pub executed: bool,
}

/// The mathematical value of an instance.
pub struct InstanceView {
    pub instance_id: Option<InstanceId>,
    pub last_ballot: Option<BallotNum>,
    pub ballot: Option<BallotNum>,
    pub cmds: Seq<CommandView>,
    pub initial_deps: Option<Seq<InstanceId>>,
    pub deps: Option<Seq<InstanceId>>,
    pub final_deps: Option<Seq<InstanceId>>,
    pub committed: bool,
    pub executed: bool,
}

/// The value of an optional dependency vector.
pub open spec fn opt_iids_view(o: Option<InstanceIdVec>) -> Option<Seq<InstanceId>> {
    match o {
        Some(d) => Some(d@),
        None => None,
    }
}

/// Well-formedness of an optional dependency vector.
pub open spec fn opt_iids_wf(o: Option<Seq<InstanceId>>) -> bool {
    match o {
        Some(d) => iids_wf(d),
        None => true,
    }
}

impl View for Instance {
    type V = InstanceView;

    open spec fn view(&self) -> InstanceView {
        InstanceView {
            instance_id: self.instance_id,
            last_ballot: self.last_ballot,
            ballot: self.ballot,
            cmds: self.cmds.deep_view(),
            initial_deps: opt_iids_view(self.initial_deps),
            deps: opt_iids_view(self.deps),
            final_deps: opt_iids_view(self.final_deps),
            committed: self.committed,
            executed: self.executed,
        }
    }
}

/// Well-formedness of an instance: every dependency vector names each
/// replica at most once, and the last ballot never exceeds the current
/// one.
pub open spec fn inst_wf(v: InstanceView) -> bool {
    &&& opt_iids_wf(v.initial_deps)
    &&& opt_iids_wf(v.deps)
    &&& opt_iids_wf(v.final_deps)
    &&& opt_ballot_le(v.last_ballot, v.ballot)
}

/// Two instances conflict iff some command of one conflicts with some
/// command of the other.
pub open spec fn insts_conflict(a: InstanceView, b: InstanceView) -> bool {
    exists|i: int, j: int|
        0 <= i < a.cmds.len() && 0 <= j < b.cmds.len() && cmd_conflict(
            #[trigger] a.cmds[i],
            #[trigger] b.cmds[j],
        )
}

/// `a` is strictly after `b`: both have final dependencies, no replica's
/// index in `a` falls below its index in `b` where both are recorded, and
/// some recorded index is strictly larger. Instances without final
/// dependencies are after nothing and nothing is after them.
pub open spec fn after_view(a: InstanceView, b: InstanceView) -> bool {
    match (a.final_deps, b.final_deps) {
        (Some(ad), Some(bd)) => {
            let am = dep_map(ad);
            let bm = dep_map(bd);
            &&& forall|r: int|
                am.dom().contains(r) && bm.dom().contains(r) ==> #[trigger] am[r] >= bm[r]
            &&& exists|r: int|
                am.dom().contains(r) && bm.dom().contains(r) && #[trigger] am[r] > bm[r]
        },
        _ => false,
    }
}

impl Clone for Instance {
    /// A clone has the same value as the original.
    fn clone(&self) -> (r: Instance)
        ensures
            r@ == self@,
    {
        let r = Instance {
            instance_id: self.instance_id,
            last_ballot: self.last_ballot,
            ballot: self.ballot,
            cmds: clone_cmds(&self.cmds),
            initial_deps: clone_opt_iids(&self.initial_deps),
            deps: clone_opt_iids(&self.deps),
            final_deps: clone_opt_iids(&self.final_deps),
            committed: self.committed,
            executed: self.executed,
        };
        r
    }
}

/// Clones an optional dependency vector; the value carried is unchanged.
pub fn clone_opt_iids(o: &Option<InstanceIdVec>) -> (r: Option<InstanceIdVec>)
    ensures
        opt_iids_view(*o) == opt_iids_view(r),
{
    match o {
        Some(d) => Some(d.clone()),
        None => None,
    }
}

impl Default for Instance {
    /// The empty instance: nothing proposed, nothing seen.
    fn default() -> (r: Instance)
        ensures
            r@ == (InstanceView {
                instance_id: None,
                last_ballot: None,
                ballot: None,
                cmds: Seq::<CommandView>::empty(),
                initial_deps: None,
                deps: None,
                final_deps: None,
                committed: false,
                executed: false,
            }),
    {
        let r = Instance {
            instance_id: None,
            last_ballot: None,
            ballot: None,
            cmds: Vec::new(),
            initial_deps: None,
            deps: None,
            final_deps: None,
            committed: false,
            executed: false,
        };
        proof {
            assert(r.cmds.deep_view() =~= Seq::<CommandView>::empty());
        }
        r
    }
}

impl Instance {
    /// Builds a fresh instance from a command batch, the leader's ballot
    /// and the proposed dependencies. Identity, provisional and final
    /// state are not yet set.
    pub fn of(cmds: &[Command], ballot: BallotNum, deps: &[InstanceId]) -> (r: Instance)
        ensures
            r@ == (InstanceView {
                instance_id: None,
                last_ballot: None,
                ballot: Some(ballot),
                cmds: cmds.deep_view(),
                initial_deps: Some(deps@),
                deps: None,
                final_deps: None,
                committed: false,
                executed: false,
            }),
    {
        let mut owned: Vec<Command> = Vec::new();
        let n = cmds.len();
        let mut k: usize = 0;
        while k < n
            invariant
                n == cmds@.len(),
                0 <= k <= n,
                owned.deep_view() =~= cmds.deep_view().take(k as int),
            decreases n - k,
        {
            owned.push(cmds[k].clone());
            proof {
                assert(cmds.deep_view().take(k as int + 1) =~= cmds.deep_view().take(
                    k as int,
                ).push(cmds@[k as int]@));
                assert(owned.deep_view() =~= cmds.deep_view().take(k as int + 1));
            }
            k += 1;
        }
        proof {
            assert(cmds.deep_view().take(n as int) =~= cmds.deep_view());
        }
        let mut ids: Vec<InstanceId> = Vec::new();
        let dn = deps.len();
        let mut j: usize = 0;
        while j < dn
            invariant
                dn == deps@.len(),
                0 <= j <= dn,
                ids@ =~= deps@.take(j as int),
            decreases dn - j,
        {
            ids.push(deps[j]);
            proof {
                assert(deps@.take(j as int + 1) =~= deps@.take(j as int).push(deps@[j as int]));
            }
            j += 1;
        }
        proof {
            assert(deps@.take(dn as int) =~= deps@);
        }
        Instance {
            instance_id: None,
            last_ballot: None,
            ballot: Some(ballot),
            cmds: owned,
            initial_deps: Some(InstanceIdVec { ids }),
            deps: None,
            final_deps: None,
            committed: false,
            executed: false,
        }
    }

    /// Whether this instance conflicts with another: some command of one
    /// conflicts with some command of the other.
    pub fn conflict(&self, with: &Instance) -> (r: bool)
        ensures
            r == insts_conflict(self@, with@),
    {
        let an = self.cmds.len();
        let bn = with.cmds.len();
        let mut i: usize = 0;
        while i < an
            invariant
                an == self.cmds@.len(),
                bn == with.cmds@.len(),
                0 <= i <= an,
                forall|x: int, y: int|
                    0 <= x < i && 0 <= y < bn ==> !cmd_conflict(
                        #[trigger] self@.cmds[x],
                        #[trigger] with@.cmds[y],
                    ),
            decreases an - i,
        {
            let mut j: usize = 0;
            while j < bn
                invariant
                    an == self.cmds@.len(),
                    bn == with.cmds@.len(),
                    0 <= i < an,
                    0 <= j <= bn,
                    forall|x: int, y: int|
                        0 <= x < i && 0 <= y < bn ==> !cmd_conflict(
                            #[trigger] self@.cmds[x],
                            #[trigger] with@.cmds[y],
                        ),
                    forall|y: int|
                        0 <= y < j ==> !cmd_conflict(self@.cmds[i as int], #[trigger] with@.cmds[y]),
                decreases bn - j,
            {
                if self.cmds[i].conflict(&with.cmds[j]) {
                    proof {
                        assert(cmd_conflict(self@.cmds[i as int], with@.cmds[j as int]));
                    }
                    return true;
                }
                j += 1;
            }
            i += 1;
        }
        false
    }

    /// Whether this instance is strictly after another in the final
    /// dependency order. An instance without final dependencies is
    /// neither before nor after anything.
    pub fn after(&self, other: &Instance) -> (r: bool)
        requires
            inst_wf(self@),
            inst_wf(other@),
        ensures
            r == after_view(self@, other@),
    {
        let mine = match &self.final_deps {
            Some(d) => d,
            None => {
                return false;
            },
        };
        let theirs = match &other.final_deps {
            Some(d) => d,
            None => {
                return false;
            },
        };
        let ghost am = dep_map(mine@);
        let ghost bm = dep_map(theirs@);
        let mut great = false;
        let n = theirs.ids.len();
        let mut k: usize = 0;
        while k < n
            invariant
                n == theirs@.len(),
                self@.final_deps == Some(mine@),
                other@.final_deps == Some(theirs@),
                iids_wf(mine@),
                iids_wf(theirs@),
                am == dep_map(mine@),
                bm == dep_map(theirs@),
                0 <= k <= n,
                forall|j: int|
                    0 <= j < k && am.dom().contains(#[trigger] theirs@[j].replica_id as int)
                        ==> am[theirs@[j].replica_id as int] >= theirs@[j].idx as int,
                great == exists|j: int|
                    0 <= j < k && am.dom().contains(#[trigger] theirs@[j].replica_id as int)
                        && am[theirs@[j].replica_id as int] > theirs@[j].idx as int,
            decreases n - k,
        {
            let iid = theirs.ids[k];
            proof {
                crate::deps::lemma_wf_unique(theirs@, k as int);
            }
            let myiid = mine.get(iid.replica_id);
            match myiid {
                Some(m) => {
                    if m.idx < iid.idx {
                        proof {
                            let rid = iid.replica_id as int;
                            assert(self@.final_deps == Some(mine@));
                            assert(other@.final_deps == Some(theirs@));
                            assert(am.dom().contains(rid));
                            assert(am[rid] < iid.idx as int);
                            assert(bm.dom().contains(rid));
                            assert(bm[rid] == iid.idx as int);
                            assert(!after_view(self@, other@)) by {
                                let ad = self@.final_deps->Some_0;
                                let bd = other@.final_deps->Some_0;
                                assert(dep_map(ad).dom().contains(rid));
                                assert(dep_map(bd).dom().contains(rid));
                                assert(dep_map(ad)[rid] < dep_map(bd)[rid]);
                            }
                        }
                        return false;
                    }
                    if m.idx > iid.idx {
                        great = true;
                    }
                },
                None => {},
            }
            k += 1;
        }
        proof {
            if great {
                let j = choose|j: int|
                    0 <= j < n && am.dom().contains(#[trigger] theirs@[j].replica_id as int)
                        && am[theirs@[j].replica_id as int] > theirs@[j].idx as int;
                crate::deps::lemma_wf_unique(theirs@, j);
                assert(bm.dom().contains(theirs@[j].replica_id as int));
            }
            assert forall|r: int| am.dom().contains(r) && bm.dom().contains(r) implies #[trigger]
                am[r] >= bm[r] by {
                let j = choose|j: int| 0 <= j < n && #[trigger] theirs@[j].replica_id == r;
                crate::deps::lemma_wf_unique(theirs@, j);
            }
            if !great {
                assert forall|r: int|
                    am.dom().contains(r) && bm.dom().contains(r) implies !(#[trigger] am[r]
                    > bm[r]) by {
                    let j = choose|j: int| 0 <= j < n && #[trigger] theirs@[j].replica_id == r;
                    crate::deps::lemma_wf_unique(theirs@, j);
                }
            }
        }
        great
    }

    /// The durable key of this instance: the key of its instance id,
    /// which must be set and carry a non-negative index.
    pub fn to_key(&self) -> (r: Vec<u8>)
        requires
            self@.instance_id is Some,
            self@.instance_id->Some_0.idx >= 0,
        ensures
            r@ == key_bytes(self@.instance_id->Some_0),
    {
        match &self.instance_id {
            Some(iid) => iid.to_key(),
            None => {
                proof {
                    assert(false);
                }
                Vec::new()
            },
        }
    }
}

} // verus!
