//! The per-replica state machine: the instance log and the handlers for
//! the FastAccept, Accept, Commit and Prepare requests.
//!
//! Every handler first validates the common header and answers a
//! malformed request with a structured error, mutating nothing. A stale
//! ballot is answered with the strictly larger ballot last seen, again
//! mutating nothing. A commit is authoritative: it is applied whatever
//! the local ballot, but never changes the value of an already committed
//! instance.

use vstd::prelude::*;

use crate::command::clone_cmds;
use crate::deps::dep_map;
use crate::deps::iids_wf;
use crate::deps::union_map;
use crate::deps::InstanceIdVec;
use crate::engine::committed_at;
use crate::engine::is_max_committed_idx;
use crate::engine::max_committed_of;
use crate::engine::MemEngine;
use crate::errors::InvalidRequest;
use crate::errors::InvalidRequestView;
use crate::errors::QError;
use crate::errors::QErrorView;
use crate::fmt::dec_i64;
use crate::fmt::dec_str;
use crate::ids::opt_ballot_le;
use crate::ids::opt_ballot_lt;
use crate::ids::opt_ballot_less;
use crate::ids::BallotNum;
use crate::ids::InstanceId;
use crate::ids::InstanceIdx;
use crate::ids::ReplicaId;
use crate::instance::clone_opt_iids;
use crate::instance::inst_wf;
use crate::instance::opt_iids_wf;
use crate::command::CommandView;
use crate::instance::Instance;
use crate::instance::InstanceView;
use crate::message::AcceptReply;
use crate::message::AcceptRequest;
use crate::message::CommitReply;
use crate::message::CommitRequest;
use crate::message::FastAcceptReply;
use crate::message::FastAcceptRequest;
use crate::message::PrepareReply;
use crate::message::PrepareRequest;
use crate::message::ReplyCommon;
use crate::message::RequestCommon;

verus! {

/// The running state of a replica.
#[derive(Clone, Copy, Debug, PartialEq, Eq, Structural)]
pub enum ReplicaStatus {
    Running,
    Stopped,
}

/// Per-replica configuration.
#[derive(Clone, Copy, Debug, PartialEq, Eq, Structural)]
pub struct ReplicaConf {}

impl Default for ReplicaConf {
    /// The default configuration.
    fn default() -> (r: ReplicaConf)
        ensures
            r == (ReplicaConf {  }),
    {
        ReplicaConf {  }
    }
}

/// One replica: its identity, its group, and its instance log.
pub struct Replica {
    pub replica_id: ReplicaId,
    pub group_replica_ids: Vec<ReplicaId>,
    pub status: ReplicaStatus,
    pub peers: Vec<ReplicaId>,
    pub conf: ReplicaConf,
    pub inst_idx: InstanceIdx,
    pub latest_cp: InstanceId,
    pub storage: MemEngine,
    pub problem_inst_ids: Vec<InstanceId>,
}

impl Replica {
    /// A fresh replica: running, with an empty log, ready to serve its
    /// group.
    pub fn new(replica_id: ReplicaId, group_replica_ids: Vec<ReplicaId>) -> (r: Replica)
        ensures
            r.wf(),
            r.replica_id == replica_id,
            r.group_replica_ids == group_replica_ids,
            r.status == ReplicaStatus::Running,
            r.inst_idx == 0,
            r.insts() =~= Map::<InstanceId, InstanceView>::empty(),
            r.storage.kv_state().data =~= Map::<Seq<u8>, Seq<u8>>::empty(),
    {
        Replica {
            replica_id,
            group_replica_ids,
            status: ReplicaStatus::Running,
            peers: Vec::new(),
            conf: ReplicaConf {  },
            inst_idx: 0,
            latest_cp: InstanceId { replica_id: 0, idx: 0 },
            storage: MemEngine::new(),
            problem_inst_ids: Vec::new(),
        }
    }

    /// The instance log of this replica.
    pub open spec fn insts(&self) -> Map<InstanceId, InstanceView> {
        self.storage.inst_view()
    }

    /// Well-formedness: the storage is sorted and every stored instance
    /// is well-formed.
    pub open spec fn wf(&self) -> bool {
        &&& self.storage.wf()
        &&& forall|iid: InstanceId|
            self.insts().dom().contains(iid) ==> inst_wf(#[trigger] self.insts()[iid])
    }
}

/// Everything but the storage is unchanged: the replica keeps its
/// identity, group, status, peers, configuration, local index and
/// checkpoint.
pub open spec fn unchanged_but_storage(pre: Replica, post: Replica) -> bool {
    &&& post.replica_id == pre.replica_id
    &&& post.group_replica_ids == pre.group_replica_ids
    &&& post.status == pre.status
    &&& post.peers == pre.peers
    &&& post.conf == pre.conf
    &&& post.inst_idx == pre.inst_idx
    &&& post.latest_cp == pre.latest_cp
    &&& post.problem_inst_ids == pre.problem_inst_ids
}

/// Whether a request header is acceptable to the replica `my`.
pub open spec fn cmn_ok(my: ReplicaId, cmn: Option<RequestCommon>) -> bool {
    &&& cmn is Some
    &&& cmn->Some_0.to_replica_id == my
    &&& cmn->Some_0.ballot is Some
    &&& cmn->Some_0.instance_id is Some
}

/// The context string of a misaddressed request.
pub open spec fn wrong_replica_ctx(to: ReplicaId, my: ReplicaId) -> Seq<char> {
    dec_str(to as int) + "; my replica_id: "@ + dec_str(my as int)
}

/// The validation error of an unacceptable request header: the first
/// failing rule names the field.
pub open spec fn cmn_invalid(my: ReplicaId, cmn: Option<RequestCommon>) -> InvalidRequestView {
    if cmn is None {
        InvalidRequestView { field: "cmn"@, problem: "LackOf"@, ctx: ""@ }
    } else if cmn->Some_0.to_replica_id != my {
        InvalidRequestView {
            field: "cmn.to_replica_id"@,
            problem: "NotFound"@,
            ctx: wrong_replica_ctx(cmn->Some_0.to_replica_id, my),
        }
    } else if cmn->Some_0.ballot is None {
        InvalidRequestView { field: "cmn.ballot"@, problem: "LackOf"@, ctx: ""@ }
    } else {
        InvalidRequestView { field: "cmn.instance_id"@, problem: "LackOf"@, ctx: ""@ }
    }
}

/// The reply error of an unacceptable request header.
pub open spec fn cmn_qerror(my: ReplicaId, cmn: Option<RequestCommon>) -> QErrorView {
    QErrorView { req: Some(cmn_invalid(my, cmn)), sto: None }
}

/// Validates a request header: hands back the ballot and instance id, or
/// the structured error naming the first failing rule.
pub fn check_req_common(my: ReplicaId, cmn: &Option<RequestCommon>) -> (r: Result<
    (BallotNum, InstanceId),
    QError,
>)
    ensures
        r is Ok <==> cmn_ok(my, *cmn),
        match r {
            Ok(bi) => {
                &&& Some(bi.0) == cmn->Some_0.ballot
                &&& Some(bi.1) == cmn->Some_0.instance_id
            },
            Err(q) => q@ == cmn_qerror(my, *cmn),
        },
{
    let c = match cmn {
        Some(c) => c,
        None => {
            return Err(QError::of_invalid(InvalidRequest::of("cmn", "LackOf", "")));
        },
    };
    if c.to_replica_id != my {
        let mut ctx = dec_i64(c.to_replica_id);
        vstd::string::StringExecFns::append(&mut ctx, "; my replica_id: ");
        let my_s = dec_i64(my);
        vstd::string::StringExecFns::append(&mut ctx, my_s.as_str());
        let inv = InvalidRequest {
            field: "cmn.to_replica_id".to_owned(),
            problem: "NotFound".to_owned(),
            ctx,
        };
        return Err(QError::of_invalid(inv));
    }
    let ballot = match &c.ballot {
        Some(b) => *b,
        None => {
            return Err(QError::of_invalid(InvalidRequest::of("cmn.ballot", "LackOf", "")));
        },
    };
    let instance_id = match &c.instance_id {
        Some(i) => *i,
        None => {
            return Err(QError::of_invalid(InvalidRequest::of("cmn.instance_id", "LackOf", "")));
        },
    };
    Ok((ballot, instance_id))
}

/// The stored instance a handler works on: the one under the id, or a
/// fresh empty record carrying the id.
pub open spec fn local_or_empty(
    store: Map<InstanceId, InstanceView>,
    iid: InstanceId,
) -> InstanceView {
    if store.dom().contains(iid) {
        store[iid]
    } else {
        InstanceView {
            instance_id: Some(iid),
            last_ballot: None,
            ballot: None,
            cmds: Seq::<CommandView>::empty(),
            initial_deps: None,
            deps: None,
            final_deps: None,
            committed: false,
            executed: false,
        }
    }
}

/// The larger of a present ballot and an optional one.
pub open spec fn opt_ballot_max(a: Option<BallotNum>, b: BallotNum) -> Option<BallotNum> {
    if opt_ballot_lt(Some(b), a) {
        a
    } else {
        Some(b)
    }
}

/// The instance the fast phase starts from: the stored one, or one
/// installed from the request.
pub open spec fn fast_accept_local(
    store: Map<InstanceId, InstanceView>,
    iid: InstanceId,
    req: crate::message::FastAcceptRequestView,
    blt: BallotNum,
) -> InstanceView {
    if store.dom().contains(iid) {
        store[iid]
    } else {
        InstanceView {
            instance_id: Some(iid),
            last_ballot: None,
            ballot: Some(blt),
            cmds: req.cmds,
            initial_deps: req.initial_deps,
            deps: req.initial_deps,
            final_deps: None,
            committed: false,
            executed: false,
        }
    }
}

/// The instance stored after a slow-phase write: the final dependencies
/// installed under the request's ballot, the previous ballot remembered.
pub open spec fn accept_result(
    pre: InstanceView,
    blt: BallotNum,
    fdeps: Option<Seq<InstanceId>>,
) -> InstanceView {
    InstanceView { ballot: Some(blt), last_ballot: pre.ballot, final_deps: fdeps, ..pre }
}

/// The instance stored after a commit: the value is installed and frozen
/// when the instance was not committed; an already committed instance is
/// left wholly unchanged, whatever the commit's ballot.
pub open spec fn commit_result(
    pre: InstanceView,
    blt: BallotNum,
    cmds: Seq<CommandView>,
    fdeps: Option<Seq<InstanceId>>,
) -> InstanceView {
    if pre.committed {
        pre
    } else {
        InstanceView {
            ballot: opt_ballot_max(pre.ballot, blt),
            last_ballot: pre.ballot,
            cmds,
            final_deps: fdeps,
            committed: true,
            ..pre
        }
    }
}

/// The instance stored after a recovery prepare: only the ballots move.
pub open spec fn prepare_result(pre: InstanceView, blt: BallotNum) -> InstanceView {
    InstanceView { ballot: Some(blt), last_ballot: pre.ballot, ..pre }
}

/// Whether a dependency is known satisfied here: the instance is stored
/// and committed, or the dependency is the zero sentinel naming no
/// instance at all.
pub open spec fn dep_committed_flag(store: Map<InstanceId, InstanceView>, d: InstanceId) -> bool {
    committed_at(store, d) || (d.idx == 0 && !store.dom().contains(d))
}

/// The dependency map of an optional vector, the empty map when absent.
pub open spec fn opt_dep_map(o: Option<Seq<InstanceId>>) -> Map<int, int> {
    match o {
        Some(d) => dep_map(d),
        None => Map::<int, int>::empty(),
    }
}

/// An optional vector, the empty sequence when absent.
pub open spec fn opt_seq(o: Option<Seq<InstanceId>>) -> Seq<InstanceId> {
    match o {
        Some(d) => d,
        None => Seq::<InstanceId>::empty(),
    }
}

/// The vector with each dependency raised to the highest locally
/// committed index of its replica, positions kept.
pub open spec fn bump_vec(store: Map<InstanceId, InstanceView>, v: Seq<InstanceId>) -> Seq<
    InstanceId,
> {
    Seq::new(
        v.len(),
        |i: int|
            InstanceId {
                replica_id: v[i].replica_id,
                idx: {
                    let c = max_committed_of(store, v[i].replica_id);
                    if c > v[i].idx {
                        c
                    } else {
                        v[i].idx
                    }
                },
            },
    )
}

/// The exact dependency vector the fast phase stores and replies with:
/// the local vector's entries in their order, raised where the proposal
/// is larger, the proposal's fresh replicas appended in its order, and
/// every position raised to the highest locally committed index.
pub open spec fn fast_accept_dep_vec(
    store: Map<InstanceId, InstanceView>,
    pre: InstanceView,
    req: crate::message::FastAcceptRequestView,
) -> Seq<InstanceId> {
    bump_vec(store, crate::deps::union_vec(opt_seq(pre.deps), opt_seq(req.initial_deps)))
}

/// The instance stored after a fast-phase write: the merged dependency
/// vector installed under the request's ballot, the previous ballot
/// remembered.
pub open spec fn fast_accept_result(
    pre: InstanceView,
    blt: BallotNum,
    nd: Seq<InstanceId>,
) -> InstanceView {
    InstanceView { ballot: Some(blt), last_ballot: pre.ballot, deps: Some(nd), ..pre }
}

/// The dependency map the fast phase stores: the union of the local and
/// the proposed dependencies, each raised to the highest locally
/// committed index of its replica.
pub open spec fn fast_accept_dep_map(
    store: Map<InstanceId, InstanceView>,
    pre: InstanceView,
    req: crate::message::FastAcceptRequestView,
) -> Map<int, int> {
    bump_committed_map(store, union_map(opt_dep_map(pre.deps), opt_dep_map(req.initial_deps)))
}

/// Each dependency raised to the highest locally committed index of its
/// replica.
pub open spec fn bump_committed_map(
    store: Map<InstanceId, InstanceView>,
    m: Map<int, int>,
) -> Map<int, int> {
    Map::new(
        |r: int| m.dom().contains(r),
        |r: int|
            {
                let c = max_committed_of(store, r as i64);
                if c > m[r] {
                    c as int
                } else {
                    m[r]
                }
            },
    )
}

impl Replica {
    /// Serves the fast phase: merges the sender's proposed dependencies
    /// with what this replica has itself seen committed, installs the
    /// instance when it is new, and reports per dependency whether it is
    /// committed here. A stale ballot mutates nothing and is answered
    /// with the ballot last seen.
    pub fn handle_fast_accept(&mut self, req: &FastAcceptRequest) -> (r: FastAcceptReply)
        requires
            old(self).wf(),
            opt_iids_wf(req@.initial_deps),
        ensures
            final(self).wf(),
            unchanged_but_storage(*old(self), *final(self)),
            final(self).storage.kv_state() == old(self).storage.kv_state(),
            ({
                let my = old(self).replica_id;
                let store = old(self).insts();
                if !cmn_ok(my, req@.cmn) {
                    &&& r@.err == Some(cmn_qerror(my, req@.cmn))
                    &&& r@.cmn is None
                    &&& final(self).insts() == store
                } else {
                    let blt = req@.cmn->Some_0.ballot->Some_0;
                    let iid = req@.cmn->Some_0.instance_id->Some_0;
                    let pre = fast_accept_local(store, iid, req@, blt);
                    if store.dom().contains(iid) && (pre.deps is None || pre.instance_id is None) {
                        &&& r@.err == Some(QErrorView { req: None, sto: Some(crate::errors::StorageFailure {  }) })
                        &&& final(self).insts() == store
                    } else if opt_ballot_lt(Some(blt), pre.ballot) {
                        &&& r@.err is None
                        &&& r@.cmn == Some(ReplyCommon { last_ballot: pre.ballot, instance_id: Some(iid) })
                        &&& r@.deps is None
                        &&& final(self).insts() == store
                    } else {
                        let newv = final(self).insts()[iid];
                        &&& r@.err is None
                        &&& r@.cmn == Some(ReplyCommon { last_ballot: pre.ballot, instance_id: Some(iid) })
                        &&& final(self).insts() == store.insert(iid, newv)
                        &&& newv.deps is Some
                        &&& newv == fast_accept_result(pre, blt, newv.deps->Some_0)
                        &&& newv.deps->Some_0 == fast_accept_dep_vec(store, pre, req@)
                        &&& iids_wf(newv.deps->Some_0)
                        &&& dep_map(newv.deps->Some_0) == fast_accept_dep_map(store, pre, req@)
                        &&& r@.deps == newv.deps
                        &&& r@.deps_committed.len() == newv.deps->Some_0.len()
                        &&& forall|i: int|
                            0 <= i < r@.deps_committed.len() ==> #[trigger] r@.deps_committed[i]
                                == dep_committed_flag(store, newv.deps->Some_0[i])
                    }
                }
            }),
    {
        let (blt, iid) = match check_req_common(self.replica_id, &req.cmn) {
            Ok(v) => v,
            Err(q) => {
                return FastAcceptReply {
                    cmn: None,
                    err: Some(q),
                    deps: None,
                    deps_committed: Vec::new(),
                };
            },
        };
        let local_opt = self.storage.get_instance(iid);
        let mut local: Instance;
        match local_opt {
            Some(l) => {
                if l.deps.is_none() || l.instance_id.is_none() {
                    return FastAcceptReply {
                        cmn: None,
                        err: Some(QError::of_storage()),
                        deps: None,
                        deps_committed: Vec::new(),
                    };
                }
                local = l;
            },
            None => {
                local = Instance {
                    instance_id: Some(iid),
                    last_ballot: None,
                    ballot: Some(blt),
                    cmds: clone_cmds(&req.cmds),
                    initial_deps: clone_opt_iids(&req.initial_deps),
                    deps: clone_opt_iids(&req.initial_deps),
                    final_deps: None,
                    committed: false,
                    executed: false,
                };
            },
        }
        if opt_ballot_less(&Some(blt), &local.ballot) {
            return FastAcceptReply {
                cmn: Some(ReplyCommon { last_ballot: local.ballot, instance_id: Some(iid) }),
                err: None,
                deps: None,
                deps_committed: Vec::new(),
            };
        }
        let empty_vec = InstanceIdVec::new();
        let base: &InstanceIdVec = match &local.deps {
            Some(d) => d,
            None => &empty_vec,
        };
        let req_deps: &InstanceIdVec = match &req.initial_deps {
            Some(d) => d,
            None => &empty_vec,
        };
        proof {
            if old(self).insts().dom().contains(iid) {
                assert(inst_wf(old(self).insts()[iid]));
            }
            assert(iids_wf(base@));
            assert(iids_wf(req_deps@));
            assert(dep_map(empty_vec@) =~= Map::<int, int>::empty());
        }
        proof {
            let store = old(self).insts();
            let pre = fast_accept_local(store, iid, req@, blt);
            assert(base@ == opt_seq(pre.deps));
            assert(req_deps@ == opt_seq(req@.initial_deps));
        }
        let unioned = base.union(req_deps);
        let bumped = bump_committed(&self.storage, &unioned);
        let flags = deps_flags(&self.storage, &bumped);
        let reply_deps = bumped.clone();
        let pre_ballot = local.ballot;
        local.last_ballot = local.ballot;
        local.ballot = Some(blt);
        local.deps = Some(bumped);
        let _ = self.storage.set_obj(iid, &local);
        proof {
            let store = old(self).insts();
            let pre = fast_accept_local(store, iid, req@, blt);
            assert(local@.deps is Some);
            assert(local@ == fast_accept_result(pre, blt, local@.deps->Some_0));
            assert(opt_ballot_le(pre.ballot, Some(blt))) by {
                crate::ids::lemma_opt_ballot_total(pre.ballot, Some(blt));
            }
            assert(inst_wf(local@));
            assert forall|x: InstanceId|
                self.insts().dom().contains(x) implies inst_wf(#[trigger] self.insts()[x]) by {
                if x != iid {
                    assert(self.insts()[x] == store[x]);
                }
            }
        }
        FastAcceptReply {
            cmn: Some(ReplyCommon { last_ballot: pre_ballot, instance_id: Some(iid) }),
            err: None,
            deps: Some(reply_deps),
            deps_committed: flags,
        }
    }

    /// Serves the slow phase: installs the final dependency vector under
    /// the request's ballot. A stale ballot, or an already committed
    /// instance, mutates nothing; the reply carries the ballot last seen.
    pub fn handle_accept(&mut self, req: &AcceptRequest) -> (r: AcceptReply)
        requires
            old(self).wf(),
            opt_iids_wf(req@.final_deps),
        ensures
            final(self).wf(),
            unchanged_but_storage(*old(self), *final(self)),
            final(self).storage.kv_state() == old(self).storage.kv_state(),
            ({
                let my = old(self).replica_id;
                let store = old(self).insts();
                if !cmn_ok(my, req@.cmn) {
                    &&& r@.err == Some(cmn_qerror(my, req@.cmn))
                    &&& r@.cmn is None
                    &&& final(self).insts() == store
                } else {
                    let blt = req@.cmn->Some_0.ballot->Some_0;
                    let iid = req@.cmn->Some_0.instance_id->Some_0;
                    let pre = local_or_empty(store, iid);
                    &&& r@.err is None
                    &&& r@.cmn == Some(ReplyCommon { last_ballot: pre.ballot, instance_id: Some(iid) })
                    &&& if opt_ballot_lt(Some(blt), pre.ballot) || pre.committed {
                        final(self).insts() == store
                    } else {
                        final(self).insts() == store.insert(
                            iid,
                            accept_result(pre, blt, req@.final_deps),
                        )
                    }
                }
            }),
    {
        let (blt, iid) = match check_req_common(self.replica_id, &req.cmn) {
            Ok(v) => v,
            Err(q) => {
                return AcceptReply { cmn: None, err: Some(q) };
            },
        };
        let local_opt = self.storage.get_instance(iid);
        let mut local: Instance = match local_opt {
            Some(l) => l,
            None => {
                let mut d = Instance::default();
                d.instance_id = Some(iid);
                d
            },
        };
        let pre_ballot = local.ballot;
        if !opt_ballot_less(&Some(blt), &local.ballot) && !local.committed {
            local.last_ballot = local.ballot;
            local.ballot = Some(blt);
            local.final_deps = clone_opt_iids(&req.final_deps);
            let _ = self.storage.set_obj(iid, &local);
            proof {
                let store = old(self).insts();
                let pre = local_or_empty(store, iid);
                assert(local@ == (InstanceView {
                    ballot: Some(blt),
                    last_ballot: pre.ballot,
                    final_deps: req@.final_deps,
                    ..pre
                }));
                assert(opt_ballot_le(pre.ballot, Some(blt))) by {
                    crate::ids::lemma_opt_ballot_total(pre.ballot, Some(blt));
                }
                if store.dom().contains(iid) {
                    assert(inst_wf(store[iid]));
                }
                assert(inst_wf(local@));
                assert forall|x: InstanceId|
                    self.insts().dom().contains(x) implies inst_wf(#[trigger] self.insts()[x]) by {
                    if x != iid {
                        assert(self.insts()[x] == store[x]);
                    }
                }
            }
        }
        AcceptReply {
            cmn: Some(ReplyCommon { last_ballot: pre_ballot, instance_id: Some(iid) }),
            err: None,
        }
    }

    /// Serves a commit: authoritative whatever the local ballot. Installs
    /// the committed value when the instance is not yet committed; an
    /// already committed instance keeps its value, commands and final
    /// dependencies unchanged.
    pub fn handle_commit(&mut self, req: &CommitRequest) -> (r: CommitReply)
        requires
            old(self).wf(),
            opt_iids_wf(req@.final_deps),
        ensures
            final(self).wf(),
            unchanged_but_storage(*old(self), *final(self)),
            final(self).storage.kv_state() == old(self).storage.kv_state(),
            ({
                let my = old(self).replica_id;
                let store = old(self).insts();
                if !cmn_ok(my, req@.cmn) {
                    &&& r@.err == Some(cmn_qerror(my, req@.cmn))
                    &&& r@.cmn is None
                    &&& final(self).insts() == store
                } else {
                    let blt = req@.cmn->Some_0.ballot->Some_0;
                    let iid = req@.cmn->Some_0.instance_id->Some_0;
                    let pre = local_or_empty(store, iid);
                    &&& r@.err is None
                    &&& r@.cmn == Some(ReplyCommon { last_ballot: pre.ballot, instance_id: Some(iid) })
                    &&& final(self).insts() == store.insert(
                        iid,
                        commit_result(pre, blt, req@.cmds, req@.final_deps),
                    )
                    &&& pre.committed ==> final(self).insts() == store
                }
            }),
    {
        let (blt, iid) = match check_req_common(self.replica_id, &req.cmn) {
            Ok(v) => v,
            Err(q) => {
                return CommitReply { cmn: None, err: Some(q) };
            },
        };
        let local_opt = self.storage.get_instance(iid);
        let mut local: Instance = match local_opt {
            Some(l) => l,
            None => {
                let mut d = Instance::default();
                d.instance_id = Some(iid);
                d
            },
        };
        let pre_ballot = local.ballot;
        if !local.committed {
            local.cmds = clone_cmds(&req.cmds);
            local.final_deps = clone_opt_iids(&req.final_deps);
            local.committed = true;
            local.last_ballot = local.ballot;
            if opt_ballot_less(&local.ballot, &Some(blt)) {
                local.ballot = Some(blt);
            }
            proof {
                crate::ids::lemma_opt_ballot_total(Some(blt), pre_ballot);
            }
            let _ = self.storage.set_obj(iid, &local);
            proof {
                let store = old(self).insts();
                let pre = local_or_empty(store, iid);
                assert(opt_ballot_le(pre.ballot, opt_ballot_max(pre.ballot, blt)));
                if store.dom().contains(iid) {
                    assert(inst_wf(store[iid]));
                }
                assert(inst_wf(local@));
                assert forall|x: InstanceId|
                    self.insts().dom().contains(x) implies inst_wf(#[trigger] self.insts()[x]) by {
                    if x != iid {
                        assert(self.insts()[x] == store[x]);
                    }
                }
            }
        } else {
            proof {
                let store = old(self).insts();
                let pre = local_or_empty(store, iid);
                // an already committed instance is wholly untouched
                assert(store.dom().contains(iid));
                assert(self.insts() =~= store.insert(iid, pre));
            }
        }
        CommitReply {
            cmn: Some(ReplyCommon { last_ballot: pre_ballot, instance_id: Some(iid) }),
            err: None,
        }
    }

    /// Serves a recovery prepare: raises the local ballot and hands back
    /// the stored value for the coordinator's recovery decision. A stale
    /// ballot mutates nothing.
    pub fn handle_prepare(&mut self, req: &PrepareRequest) -> (r: PrepareReply)
        requires
            old(self).wf(),
        ensures
            final(self).wf(),
            unchanged_but_storage(*old(self), *final(self)),
            final(self).storage.kv_state() == old(self).storage.kv_state(),
            ({
                let my = old(self).replica_id;
                let store = old(self).insts();
                if !cmn_ok(my, req.cmn) {
                    &&& r@.err == Some(cmn_qerror(my, req.cmn))
                    &&& r@.cmn is None
                    &&& final(self).insts() == store
                } else {
                    let blt = req.cmn->Some_0.ballot->Some_0;
                    let iid = req.cmn->Some_0.instance_id->Some_0;
                    let pre = local_or_empty(store, iid);
                    &&& r@.err is None
                    &&& r@.cmn == Some(ReplyCommon { last_ballot: pre.ballot, instance_id: Some(iid) })
                    &&& r@.cmds == pre.cmds
                    &&& r@.deps == pre.deps
                    &&& r@.final_deps == pre.final_deps
                    &&& r@.committed == pre.committed
                    &&& if opt_ballot_lt(Some(blt), pre.ballot) {
                        final(self).insts() == store
                    } else {
                        final(self).insts() == store.insert(iid, prepare_result(pre, blt))
                    }
                }
            }),
    {
        let (blt, iid) = match check_req_common(self.replica_id, &req.cmn) {
            Ok(v) => v,
            Err(q) => {
                return PrepareReply {
                    cmn: None,
                    err: Some(q),
                    cmds: Vec::new(),
                    deps: None,
                    final_deps: None,
                    committed: false,
                };
            },
        };
        let local_opt = self.storage.get_instance(iid);
        let mut local: Instance = match local_opt {
            Some(l) => l,
            None => {
                let mut d = Instance::default();
                d.instance_id = Some(iid);
                d
            },
        };
        let pre_ballot = local.ballot;
        let reply = PrepareReply {
            cmn: Some(ReplyCommon { last_ballot: pre_ballot, instance_id: Some(iid) }),
            err: None,
            cmds: clone_cmds(&local.cmds),
            deps: clone_opt_iids(&local.deps),
            final_deps: clone_opt_iids(&local.final_deps),
            committed: local.committed,
        };
        if !opt_ballot_less(&Some(blt), &local.ballot) {
            local.last_ballot = local.ballot;
            local.ballot = Some(blt);
            let _ = self.storage.set_obj(iid, &local);
            proof {
                let store = old(self).insts();
                let pre = local_or_empty(store, iid);
                assert(local@ == (InstanceView {
                    ballot: Some(blt),
                    last_ballot: pre.ballot,
                    ..pre
                }));
                assert(opt_ballot_le(pre.ballot, Some(blt))) by {
                    crate::ids::lemma_opt_ballot_total(pre.ballot, Some(blt));
                }
                if store.dom().contains(iid) {
                    assert(inst_wf(store[iid]));
                }
                assert(inst_wf(local@));
                assert forall|x: InstanceId|
                    self.insts().dom().contains(x) implies inst_wf(#[trigger] self.insts()[x]) by {
                    if x != iid {
                        assert(self.insts()[x] == store[x]);
                    }
                }
            }
        }
        reply
    }
}

/// Raises each dependency to the highest index this replica has seen
/// committed from that dependency's replica.
fn bump_committed(eng: &MemEngine, v: &InstanceIdVec) -> (r: InstanceIdVec)
    requires
        eng.wf(),
        iids_wf(v@),
    ensures
        iids_wf(r@),
        r@ == bump_vec(eng.inst_view(), v@),
        dep_map(r@) == bump_committed_map(eng.inst_view(), dep_map(v@)),
{
    let mut ids: Vec<InstanceId> = Vec::new();
    let n = v.ids.len();
    let mut k: usize = 0;
    while k < n
        invariant
            eng.wf(),
            iids_wf(v@),
            n == v@.len(),
            0 <= k <= n,
            ids@.len() == k,
            forall|i: int|
                0 <= i < k ==> #[trigger] ids@[i].replica_id == v@[i].replica_id,
            forall|i: int|
                0 <= i < k ==> #[trigger] ids@[i].idx as int == ({
                    let c = max_committed_of(eng.inst_view(), v@[i].replica_id);
                    if c > v@[i].idx {
                        c as int
                    } else {
                        v@[i].idx as int
                    }
                }),
        decreases n - k,
    {
        let e = v.ids[k];
        let c = eng.max_committed_idx_of(e.replica_id);
        let idx = if c > e.idx {
            c
        } else {
            e.idx
        };
        ids.push(InstanceId { replica_id: e.replica_id, idx });
        k += 1;
    }
    let r = InstanceIdVec { ids };
    proof {
        assert forall|i: int, j: int| 0 <= i < j < r@.len() implies #[trigger] r@[i].replica_id
            != #[trigger] r@[j].replica_id by {
            assert(v@[i].replica_id != v@[j].replica_id);
        }
        assert forall|i: int| 0 <= i < r@.len() implies r@[i] == #[trigger] bump_vec(
            eng.inst_view(),
            v@,
        )[i] by {
            assert(r@[i].replica_id == v@[i].replica_id);
            assert(r@[i].idx as int == ({
                let c = max_committed_of(eng.inst_view(), v@[i].replica_id);
                if c > v@[i].idx {
                    c as int
                } else {
                    v@[i].idx as int
                }
            }));
        }
        assert(r@ =~= bump_vec(eng.inst_view(), v@));
        lemma_same_rids_map(v@, r@, eng.inst_view());
    }
    r
}

/// Two well-formed vectors over the same replicas in the same order have
/// the bump relation at the map level when they have it pointwise.
proof fn lemma_same_rids_map(
    v: Seq<InstanceId>,
    r: Seq<InstanceId>,
    store: Map<InstanceId, InstanceView>,
)
    requires
        iids_wf(v),
        iids_wf(r),
        r.len() == v.len(),
        forall|i: int| 0 <= i < v.len() ==> #[trigger] r[i].replica_id == v[i].replica_id,
        forall|i: int|
            0 <= i < v.len() ==> #[trigger] r[i].idx as int == ({
                let c = max_committed_of(store, v[i].replica_id);
                if c > v[i].idx {
                    c as int
                } else {
                    v[i].idx as int
                }
            }),
    ensures
        dep_map(r) == bump_committed_map(store, dep_map(v)),
{
    assert forall|rid: int| #[trigger]
        dep_map(r).dom().contains(rid) == bump_committed_map(store, dep_map(v)).dom().contains(
            rid,
        ) by {
        if crate::deps::dep_contains(r, rid) {
            let i = choose|i: int| 0 <= i < r.len() && #[trigger] r[i].replica_id == rid;
            assert(v[i].replica_id == rid);
            assert(crate::deps::dep_contains(v, rid));
        }
        if crate::deps::dep_contains(v, rid) {
            let i = choose|i: int| 0 <= i < v.len() && #[trigger] v[i].replica_id == rid;
            assert(r[i].replica_id == rid);
            assert(crate::deps::dep_contains(r, rid));
        }
    }
    assert forall|rid: int| dep_map(r).dom().contains(rid) implies #[trigger] dep_map(r)[rid]
        == bump_committed_map(store, dep_map(v))[rid] by {
        let i = choose|i: int| 0 <= i < r.len() && #[trigger] r[i].replica_id == rid;
        crate::deps::lemma_wf_unique(r, i);
        assert(v[i].replica_id == rid);
        crate::deps::lemma_wf_unique(v, i);
        assert(rid as i64 == v[i].replica_id);
    }
    assert(dep_map(r) =~= bump_committed_map(store, dep_map(v)));
}

/// For each dependency, whether this replica holds it satisfied:
/// committed here, or the zero sentinel naming no instance.
fn deps_flags(eng: &MemEngine, v: &InstanceIdVec) -> (r: Vec<bool>)
    requires
        eng.wf(),
    ensures
        r@.len() == v@.len(),
        forall|i: int|
            0 <= i < v@.len() ==> #[trigger] r@[i] == dep_committed_flag(eng.inst_view(), v@[i]),
{
    let mut flags: Vec<bool> = Vec::new();
    let n = v.ids.len();
    let mut k: usize = 0;
    while k < n
        invariant
            eng.wf(),
            n == v@.len(),
            0 <= k <= n,
            flags@.len() == k,
            forall|i: int|
                0 <= i < k ==> #[trigger] flags@[i] == dep_committed_flag(eng.inst_view(), v@[i]),
        decreases n - k,
    {
        let e = v.ids[k];
        let f = match eng.get_instance(e) {
            Some(inst) => inst.committed,
            None => e.idx == 0,
        };
        flags.push(f);
        k += 1;
    }
    flags
}


/// Whether some index is the highest committed one a log holds for a
/// replica; every finite log has one.
pub open spec fn has_max_committed(store: Map<InstanceId, InstanceView>, r: i64) -> bool {
    exists|c: i64| is_max_committed_idx(store, r, c)
}

/// Two logs that agree on which instances are committed agree on every
/// replica's highest committed index, provided one exists.
proof fn lemma_max_committed_stable(
    s1: Map<InstanceId, InstanceView>,
    s2: Map<InstanceId, InstanceView>,
    rid: ReplicaId,
)
    requires
        forall|x: InstanceId| committed_at(s1, x) == committed_at(s2, x),
        exists|c: i64| is_max_committed_idx(s1, rid, c),
    ensures
        max_committed_of(s1, rid) == max_committed_of(s2, rid),
{
    let c = choose|c: i64| is_max_committed_idx(s1, rid, c);
    assert(is_max_committed_idx(s1, rid, c));
    assert(is_max_committed_idx(s2, rid, c)) by {
        assert(committed_at(s1, InstanceId { replica_id: rid, idx: c }) == committed_at(
            s2,
            InstanceId { replica_id: rid, idx: c },
        ));
        assert forall|j: i64|
            committed_at(s2, InstanceId { replica_id: rid, idx: j }) implies j <= c by {
            assert(committed_at(s1, InstanceId { replica_id: rid, idx: j }));
        }
    }
    crate::engine::lemma_max_committed_unique(s1, rid, c);
    crate::engine::lemma_max_committed_unique(s2, rid, c);
}

/// A commit landing on an already committed instance, whatever its
/// ballot, is a no-op: the stored record is wholly unchanged.
pub proof fn lemma_commit_frozen(
    pre: InstanceView,
    blt: BallotNum,
    cmds: Seq<CommandView>,
    fdeps: Option<Seq<InstanceId>>,
)
    requires
        pre.committed,
    ensures
        commit_result(pre, blt, cmds, fdeps) == pre,
{
}

/// Two replicas that commit an instance from requests carrying the same
/// value hold identical final dependencies and commands afterwards,
/// whatever their prior ballots: the committed value is the request's.
pub proof fn lemma_commit_agreement(
    pre1: InstanceView,
    pre2: InstanceView,
    b1: BallotNum,
    b2: BallotNum,
    cmds: Seq<CommandView>,
    fdeps: Option<Seq<InstanceId>>,
)
    requires
        !pre1.committed,
        !pre2.committed,
    ensures
        commit_result(pre1, b1, cmds, fdeps).final_deps == fdeps,
        commit_result(pre2, b2, cmds, fdeps).final_deps == fdeps,
        commit_result(pre1, b1, cmds, fdeps).final_deps == commit_result(
            pre2,
            b2,
            cmds,
            fdeps,
        ).final_deps,
        commit_result(pre1, b1, cmds, fdeps).cmds == commit_result(pre2, b2, cmds, fdeps).cmds,
        commit_result(pre1, b1, cmds, fdeps).committed,
        commit_result(pre2, b2, cmds, fdeps).committed,
{
}

/// Every write keeps the last ballot at or below the current one.
pub proof fn lemma_ballots_ordered(
    pre: InstanceView,
    blt: BallotNum,
    cmds: Seq<CommandView>,
    fdeps: Option<Seq<InstanceId>>,
    nd: Seq<InstanceId>,
)
    ensures
        opt_ballot_le(pre.last_ballot, pre.ballot) ==> opt_ballot_le(
            commit_result(pre, blt, cmds, fdeps).last_ballot,
            commit_result(pre, blt, cmds, fdeps).ballot,
        ),
        !opt_ballot_lt(Some(blt), pre.ballot) ==> opt_ballot_le(
            accept_result(pre, blt, fdeps).last_ballot,
            accept_result(pre, blt, fdeps).ballot,
        ),
        !opt_ballot_lt(Some(blt), pre.ballot) ==> opt_ballot_le(
            prepare_result(pre, blt).last_ballot,
            prepare_result(pre, blt).ballot,
        ),
        !opt_ballot_lt(Some(blt), pre.ballot) ==> opt_ballot_le(
            fast_accept_result(pre, blt, nd).last_ballot,
            fast_accept_result(pre, blt, nd).ballot,
        ),
{
    crate::ids::lemma_opt_ballot_total(Some(blt), pre.ballot);
}

/// A stale request is answered from a strictly larger ballot: whenever a
/// request's ballot falls below the stored one, the stored ballot the
/// reply hands back as `last_ballot` strictly exceeds the request's.
pub proof fn lemma_stale_reply_strictly_larger(blt: BallotNum, pre: InstanceView)
    requires
        opt_ballot_lt(Some(blt), pre.ballot),
    ensures
        pre.ballot is Some,
        crate::ids::ballot_lt(blt, pre.ballot->Some_0),
{
}

/// Serving the same fast-phase request again under an equal ballot
/// leaves the local state byte-identical: the stored record, its
/// dependency vector included, is exactly what the first service left.
pub proof fn lemma_fast_accept_idempotent(
    store: Map<InstanceId, InstanceView>,
    iid: InstanceId,
    req: crate::message::FastAcceptRequestView,
    blt: BallotNum,
)
    requires
        fast_accept_local(store, iid, req, blt).ballot == Some(blt),
        iids_wf(opt_seq(fast_accept_local(store, iid, req, blt).deps)),
        iids_wf(opt_seq(req.initial_deps)),
        // a replica's log is finite: every replica has a highest committed index
        forall|r: i64| #[trigger] has_max_committed(store, r),
    ensures
        ({
            let pre = fast_accept_local(store, iid, req, blt);
            let nd1 = fast_accept_dep_vec(store, pre, req);
            let nv1 = fast_accept_result(pre, blt, nd1);
            let store1 = store.insert(iid, nv1);
            let pre2 = fast_accept_local(store1, iid, req, blt);
            &&& fast_accept_dep_vec(store1, pre2, req) == nd1
            &&& fast_accept_result(pre2, blt, fast_accept_dep_vec(store1, pre2, req)) == nv1
            &&& store1.insert(
                iid,
                fast_accept_result(pre2, blt, fast_accept_dep_vec(store1, pre2, req)),
            ) == store1
        }),
{
    let pre = fast_accept_local(store, iid, req, blt);
    let base = opt_seq(pre.deps);
    let rm = opt_seq(req.initial_deps);
    let uv = crate::deps::union_vec(base, rm);
    let nd1 = fast_accept_dep_vec(store, pre, req);
    let nv1 = fast_accept_result(pre, blt, nd1);
    let store1 = store.insert(iid, nv1);
    let pre2 = fast_accept_local(store1, iid, req, blt);
    assert(store1.dom().contains(iid));
    assert(pre2 == nv1);
    assert(opt_seq(pre2.deps) == nd1);
    assert(nd1 == crate::replica::bump_vec(store, uv));
    assert(nd1.len() == uv.len());
    // positions keep their replicas through the bump, and each index
    // already covers what the proposal records for that replica
    assert forall|i: int| 0 <= i < nd1.len() implies #[trigger] nd1[i].replica_id
        == uv[i].replica_id && nd1[i].idx >= uv[i].idx by {
    }
    assert forall|i: int|
        0 <= i < uv.len() && crate::deps::dep_contains(
            rm,
            #[trigger] uv[i].replica_id as int,
        ) implies crate::deps::dep_at(rm, uv[i].replica_id as int) <= uv[i].idx as int by {
        if i < base.len() {
            assert(uv[i] == crate::deps::raised_by(base, rm)[i]);
            assert(uv[i].replica_id == base[i].replica_id);
        } else {
            let t = i - base.len();
            assert(uv[i] == crate::deps::fresh_entries(base, rm)[t]);
            crate::deps::lemma_fresh_from(base, rm, t);
            let j = choose|j: int|
                0 <= j < rm.len() && #[trigger] rm[j] == crate::deps::fresh_entries(base, rm)[t]
                    && !crate::deps::dep_contains(base, rm[j].replica_id as int);
            crate::deps::lemma_wf_unique(rm, j);
        }
    }
    // every replica the proposal records appears among the stored entries
    assert forall|j: int| 0 <= j < rm.len() implies crate::deps::dep_contains(
        nd1,
        #[trigger] rm[j].replica_id as int,
    ) by {
        let rid = rm[j].replica_id as int;
        if crate::deps::dep_contains(base, rid) {
            let i = choose|i: int| 0 <= i < base.len() && #[trigger] base[i].replica_id == rid;
            assert(uv[i] == crate::deps::raised_by(base, rm)[i]);
            assert(nd1[i].replica_id == rid);
        } else {
            crate::deps::lemma_fresh_contains(base, rm, j);
            let t = choose|t: int|
                0 <= t < crate::deps::fresh_entries(base, rm).len()
                    && #[trigger] crate::deps::fresh_entries(base, rm)[t] == rm[j];
            assert(uv[base.len() + t] == rm[j]);
            assert(nd1[base.len() + t].replica_id == rid);
        }
    }
    // the second union adds nothing: no fresh entries, no raising
    assert(crate::deps::fresh_entries(nd1, rm) =~= Seq::<InstanceId>::empty()) by {
        if crate::deps::fresh_entries(nd1, rm).len() > 0 {
            crate::deps::lemma_fresh_from(nd1, rm, 0);
            let j = choose|j: int|
                0 <= j < rm.len() && #[trigger] rm[j] == crate::deps::fresh_entries(nd1, rm)[0]
                    && !crate::deps::dep_contains(nd1, rm[j].replica_id as int);
            assert(crate::deps::dep_contains(nd1, rm[j].replica_id as int));
        }
    }
    assert(crate::deps::raised_by(nd1, rm) =~= nd1) by {
        assert forall|i: int| 0 <= i < nd1.len() implies #[trigger] crate::deps::raised_by(
            nd1,
            rm,
        )[i] == nd1[i] by {
            let rid = nd1[i].replica_id as int;
            if crate::deps::dep_contains(rm, rid) {
                assert(uv[i].replica_id == nd1[i].replica_id);
                assert(crate::deps::dep_at(rm, rid) <= uv[i].idx as int);
                assert(uv[i].idx <= nd1[i].idx);
            }
        }
    }
    assert(crate::deps::union_vec(nd1, rm) =~= nd1);
    // which instances are committed is unchanged by the fast-phase write
    assert forall|x: InstanceId| #[trigger] committed_at(store1, x) == committed_at(store, x) by {
        if x == iid {
            if store.dom().contains(iid) {
                assert(nv1.committed == store[iid].committed);
            } else {
                assert(!nv1.committed);
            }
        }
    }
    assert(bump_vec(store1, nd1) =~= nd1) by {
        assert forall|i: int| 0 <= i < nd1.len() implies #[trigger] bump_vec(store1, nd1)[i]
            == nd1[i] by {
            assert(has_max_committed(store, nd1[i].replica_id));
            lemma_max_committed_stable(store, store1, nd1[i].replica_id);
            assert(nd1[i].idx >= max_committed_of(store, nd1[i].replica_id)) by {
                assert(nd1[i] == bump_vec(store, uv)[i]);
            }
        }
    }
    assert(fast_accept_dep_vec(store1, pre2, req) == nd1);
    assert(fast_accept_result(pre2, blt, nd1) == nv1);
    assert(store1.insert(iid, nv1) =~= store1);
}

} // verus!
