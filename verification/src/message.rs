//! The replication protocol messages.
//!
//! Every request carries a common header naming the addressed replica,
//! the sender's ballot, and the instance concerned; the phase-specific
//! payload follows. Every reply mirrors the instance id and reports the
//! `last_ballot` the receiving replica had seen, with an optional
//! structured error.

use vstd::prelude::*;

use crate::command::clone_cmds;
use crate::command::Command;
use crate::command::CommandView;
use crate::deps::InstanceIdVec;
use crate::errors::QError;
use crate::errors::QErrorView;
use crate::ids::BallotNum;
use crate::ids::InstanceId;
use crate::ids::ReplicaId;
use crate::instance::clone_opt_iids;
use crate::instance::opt_iids_view;
use crate::instance::Instance;

verus! {

/// Whether a message travels as a request or as a reply.
#[derive(Clone, Copy, Debug, PartialEq, Eq, Structural)]
pub enum Direction {
    Request,
    Reply,
}

/// The header of every request.
#[derive(Clone, Copy, Debug, PartialEq, Eq, Structural)]
pub struct RequestCommon {
    pub to_replica_id: ReplicaId,
    pub ballot: Option<BallotNum>,
    pub instance_id: Option<InstanceId>,
}

/// The header of every reply.
#[derive(Clone, Copy, Debug, PartialEq, Eq, Structural)]
pub struct ReplyCommon {
    pub last_ballot: Option<BallotNum>,
    pub instance_id: Option<InstanceId>,
}

/// The fast-phase request: the command batch and the leader's proposed
/// dependencies, with the leader's knowledge of which of those are
/// committed.
#[derive(Debug, PartialEq, Eq)]
pub struct FastAcceptRequest {
    pub cmn: Option<RequestCommon>,
    pub cmds: Vec<Command>,
    pub initial_deps: Option<InstanceIdVec>,
    pub deps_committed: Vec<bool>,
}

/// The mathematical value of a fast-phase request.
pub struct FastAcceptRequestView {
    pub cmn: Option<RequestCommon>,
    pub cmds: Seq<CommandView>,
    pub initial_deps: Option<Seq<InstanceId>>,
    pub deps_committed: Seq<bool>,
}

impl View for FastAcceptRequest {
    type V = FastAcceptRequestView;

    open spec fn view(&self) -> FastAcceptRequestView {
        FastAcceptRequestView {
            cmn: self.cmn,
            cmds: self.cmds.deep_view(),
            initial_deps: opt_iids_view(self.initial_deps),
            deps_committed: self.deps_committed@,
        }
    }
}

impl Default for FastAcceptRequest {
    /// An empty request: no header, no payload.
    fn default() -> (r: FastAcceptRequest)
        ensures
            r@ == (FastAcceptRequestView {
                cmn: None,
                cmds: Seq::<CommandView>::empty(),
                initial_deps: None,
                deps_committed: Seq::<bool>::empty(),
            }),
    {
        let r = FastAcceptRequest {
            cmn: None,
            cmds: Vec::new(),
            initial_deps: None,
            deps_committed: Vec::new(),
        };
        proof {
            assert(r.cmds.deep_view() =~= Seq::<CommandView>::empty());
            assert(r.deps_committed@ =~= Seq::<bool>::empty());
        }
        r
    }
}

/// The slow-phase request: the final dependency vector to accept.
#[derive(Debug, PartialEq, Eq)]
pub struct AcceptRequest {
    pub cmn: Option<RequestCommon>,
    pub final_deps: Option<InstanceIdVec>,
}

/// The mathematical value of a slow-phase request.
pub struct AcceptRequestView {
    pub cmn: Option<RequestCommon>,
    pub final_deps: Option<Seq<InstanceId>>,
}

impl View for AcceptRequest {
    type V = AcceptRequestView;

    open spec fn view(&self) -> AcceptRequestView {
        AcceptRequestView { cmn: self.cmn, final_deps: opt_iids_view(self.final_deps) }
    }
}

impl Default for AcceptRequest {
    /// An empty request: no header, no payload.
    fn default() -> (r: AcceptRequest)
        ensures
            r@ == (AcceptRequestView { cmn: None, final_deps: None }),
    {
        AcceptRequest { cmn: None, final_deps: None }
    }
}

/// The commit request: the value to freeze, authoritative once sent.
#[derive(Debug, PartialEq, Eq)]
pub struct CommitRequest {
    pub cmn: Option<RequestCommon>,
    pub cmds: Vec<Command>,
    pub final_deps: Option<InstanceIdVec>,
}

/// The mathematical value of a commit request.
pub struct CommitRequestView {
    pub cmn: Option<RequestCommon>,
    pub cmds: Seq<CommandView>,
    pub final_deps: Option<Seq<InstanceId>>,
}

impl View for CommitRequest {
    type V = CommitRequestView;

    open spec fn view(&self) -> CommitRequestView {
        CommitRequestView {
            cmn: self.cmn,
            cmds: self.cmds.deep_view(),
            final_deps: opt_iids_view(self.final_deps),
        }
    }
}

impl Default for CommitRequest {
    /// An empty request: no header, no payload.
    fn default() -> (r: CommitRequest)
        ensures
            r@ == (CommitRequestView {
                cmn: None,
                cmds: Seq::<CommandView>::empty(),
                final_deps: None,
            }),
    {
        let r = CommitRequest { cmn: None, cmds: Vec::new(), final_deps: None };
        proof {
            assert(r.cmds.deep_view() =~= Seq::<CommandView>::empty());
        }
        r
    }
}

/// The recovery request: asks a replica for its view of one instance.
#[derive(Clone, Copy, Debug, PartialEq, Eq, Structural)]
pub struct PrepareRequest {
    pub cmn: Option<RequestCommon>,
}

impl Default for PrepareRequest {
    /// An empty request: no header.
    fn default() -> (r: PrepareRequest)
        ensures
            r == (PrepareRequest { cmn: None::<RequestCommon> }),
    {
        PrepareRequest { cmn: None }
    }
}

/// The fast-phase reply: the merged dependencies and, per position,
/// whether the dependency is known committed here.
#[derive(Debug, PartialEq, Eq)]
pub struct FastAcceptReply {
    pub cmn: Option<ReplyCommon>,
    pub err: Option<QError>,
    pub deps: Option<InstanceIdVec>,
    pub deps_committed: Vec<bool>,
}

/// The mathematical value of a fast-phase reply.
pub struct FastAcceptReplyView {
    pub cmn: Option<ReplyCommon>,
    pub err: Option<QErrorView>,
    pub deps: Option<Seq<InstanceId>>,
    pub deps_committed: Seq<bool>,
}

/// The value of an optional reply error.
pub open spec fn opt_err_view(o: Option<QError>) -> Option<QErrorView> {
    match o {
        Some(e) => Some(e@),
        None => None,
    }
}

impl View for FastAcceptReply {
    type V = FastAcceptReplyView;

    open spec fn view(&self) -> FastAcceptReplyView {
        FastAcceptReplyView {
            cmn: self.cmn,
            err: opt_err_view(self.err),
            deps: opt_iids_view(self.deps),
            deps_committed: self.deps_committed@,
        }
    }
}

impl DeepView for FastAcceptReply {
    type V = FastAcceptReplyView;

    open spec fn deep_view(&self) -> FastAcceptReplyView {
        self@
    }
}

/// The slow-phase reply.
#[derive(Debug, PartialEq, Eq)]
pub struct AcceptReply {
    pub cmn: Option<ReplyCommon>,
    pub err: Option<QError>,
}

/// The mathematical value of a slow-phase reply.
pub struct AcceptReplyView {
    pub cmn: Option<ReplyCommon>,
    pub err: Option<QErrorView>,
}

impl View for AcceptReply {
    type V = AcceptReplyView;

    open spec fn view(&self) -> AcceptReplyView {
        AcceptReplyView { cmn: self.cmn, err: opt_err_view(self.err) }
    }
}

impl DeepView for AcceptReply {
    type V = AcceptReplyView;

    open spec fn deep_view(&self) -> AcceptReplyView {
        self@
    }
}

/// The commit reply.
#[derive(Debug, PartialEq, Eq)]
pub struct CommitReply {
    pub cmn: Option<ReplyCommon>,
    pub err: Option<QError>,
}

/// The mathematical value of a commit reply.
pub struct CommitReplyView {
    pub cmn: Option<ReplyCommon>,
    pub err: Option<QErrorView>,
}

impl View for CommitReply {
    type V = CommitReplyView;

    open spec fn view(&self) -> CommitReplyView {
        CommitReplyView { cmn: self.cmn, err: opt_err_view(self.err) }
    }
}

/// The recovery reply: the replica's stored value for the instance, for
/// the coordinator's recovery decision.
#[derive(Debug, PartialEq, Eq)]
pub struct PrepareReply {
    pub cmn: Option<ReplyCommon>,
    pub err: Option<QError>,
    pub cmds: Vec<Command>,
    pub deps: Option<InstanceIdVec>,
    pub final_deps: Option<InstanceIdVec>,
    pub committed: bool,
}

/// The mathematical value of a recovery reply.
pub struct PrepareReplyView {
    pub cmn: Option<ReplyCommon>,
    pub err: Option<QErrorView>,
    pub cmds: Seq<CommandView>,
    pub deps: Option<Seq<InstanceId>>,
    pub final_deps: Option<Seq<InstanceId>>,
    pub committed: bool,
}

impl View for PrepareReply {
    type V = PrepareReplyView;

    open spec fn view(&self) -> PrepareReplyView {
        PrepareReplyView {
            cmn: self.cmn,
            err: opt_err_view(self.err),
            cmds: self.cmds.deep_view(),
            deps: opt_iids_view(self.deps),
            final_deps: opt_iids_view(self.final_deps),
            committed: self.committed,
        }
    }
}

impl DeepView for PrepareReply {
    type V = PrepareReplyView;

    open spec fn deep_view(&self) -> PrepareReplyView {
        self@
    }
}

/// Builders for the request of each phase, all sharing the common
/// header taken from the instance being replicated.
pub struct MakeRequest {}

/// The header a request for `inst` addressed to `to_replica_id` carries.
pub open spec fn req_cmn_of(to_replica_id: ReplicaId, inst: crate::instance::InstanceView) -> Option<
    RequestCommon,
> {
    Some(
        RequestCommon {
            to_replica_id,
            ballot: inst.ballot,
            instance_id: inst.instance_id,
        },
    )
}

impl MakeRequest {
    /// Builds the fast-phase request for an instance.
    pub fn fast_accept(to_replica_id: i64, inst: &Instance, deps_committed: &[bool]) -> (r:
        FastAcceptRequest)
        ensures
            r@ == (FastAcceptRequestView {
                cmn: req_cmn_of(to_replica_id, inst@),
                cmds: inst@.cmds,
                initial_deps: inst@.initial_deps,
                deps_committed: deps_committed@,
            }),
    {
        let mut dc: Vec<bool> = Vec::new();
        let n = deps_committed.len();
        let mut k: usize = 0;
        while k < n
            invariant
                n == deps_committed@.len(),
                0 <= k <= n,
                dc@ =~= deps_committed@.take(k as int),
            decreases n - k,
        {
            dc.push(deps_committed[k]);
            proof {
                assert(deps_committed@.take(k as int + 1) =~= deps_committed@.take(k as int).push(
                    deps_committed@[k as int],
                ));
            }
            k += 1;
        }
        proof {
            assert(deps_committed@.take(n as int) =~= deps_committed@);
        }
        FastAcceptRequest {
            cmn: Some(
                RequestCommon {
                    to_replica_id,
                    ballot: inst.ballot,
                    instance_id: inst.instance_id,
                },
            ),
            cmds: clone_cmds(&inst.cmds),
            initial_deps: clone_opt_iids(&inst.initial_deps),
            deps_committed: dc,
        }
    }

    /// Builds the slow-phase request for an instance.
    pub fn accept(to_replica_id: i64, inst: &Instance) -> (r: AcceptRequest)
        ensures
            r@ == (AcceptRequestView {
                cmn: req_cmn_of(to_replica_id, inst@),
                final_deps: inst@.final_deps,
            }),
    {
        AcceptRequest {
            cmn: Some(
                RequestCommon {
                    to_replica_id,
                    ballot: inst.ballot,
                    instance_id: inst.instance_id,
                },
            ),
            final_deps: clone_opt_iids(&inst.final_deps),
        }
    }

    /// Builds the commit request for an instance.
    pub fn commit(to_replica_id: i64, inst: &Instance) -> (r: CommitRequest)
        ensures
            r@ == (CommitRequestView {
                cmn: req_cmn_of(to_replica_id, inst@),
                cmds: inst@.cmds,
                final_deps: inst@.final_deps,
            }),
    {
        CommitRequest {
            cmn: Some(
                RequestCommon {
                    to_replica_id,
                    ballot: inst.ballot,
                    instance_id: inst.instance_id,
                },
            ),
            cmds: clone_cmds(&inst.cmds),
            final_deps: clone_opt_iids(&inst.final_deps),
        }
    }

    /// Builds the recovery request for an instance.
    pub fn prepare(to_replica_id: i64, inst: &Instance) -> (r: PrepareRequest)
        ensures
            r == (PrepareRequest { cmn: req_cmn_of(to_replica_id, inst@) }),
    {
        PrepareRequest {
            cmn: Some(
                RequestCommon {
                    to_replica_id,
                    ballot: inst.ballot,
                    instance_id: inst.instance_id,
                },
            ),
        }
    }
}

} // verus!
