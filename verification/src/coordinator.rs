//! The coordinator of a locally led instance: opening the instance and
//! deciding, from gathered replies, between the fast path, the slow path,
//! and recovery.
//!
//! The coordinator's decisions are pure functions of the replies; the
//! sending and awaiting of messages sits outside the library. The fast
//! path commits when enough peers echoed the proposed dependencies with
//! every dependency known committed; otherwise the slow path accepts the
//! union of everything the peers reported.

use vstd::prelude::*;

use crate::command::clone_cmds;
use crate::command::Command;
use crate::deps::dep_map;
use crate::deps::iids_wf;
use crate::deps::union_map;
use crate::deps::InstanceIdVec;
use crate::engine::is_max_idx;
use crate::errors::HandlerError;
use crate::errors::ReplicationError;
use crate::ids::opt_ballot_lt;
use crate::ids::BallotNum;
use crate::ids::InstanceId;
use crate::ids::ReplicaId;
use crate::instance::Instance;
use crate::instance::InstanceStatus;
use crate::message::AcceptReplyView;
use crate::message::AcceptReply;
use crate::message::FastAcceptReply;
use crate::message::FastAcceptReplyView;
use crate::message::PrepareReply;
use crate::message::PrepareReplyView;
use crate::replica::Replica;

verus! {

/// The rank of a lifecycle phase, for delay checks.
pub open spec fn status_rank(s: InstanceStatus) -> int {
    match s {
        InstanceStatus::Empty => 0,
        InstanceStatus::PreAccepted => 1,
        InstanceStatus::Accepted => 2,
        InstanceStatus::Committed => 3,
        InstanceStatus::Executed => 4,
    }
}

/// The coordinator of one replication group: its leader and the quorum
/// sizes derived from the group size.
pub struct Replication {
    pub leader_id: ReplicaId,
    pub n: i64,
    pub quorum: i64,
    pub fast_quorum: i64,
}

/// A reply that took part in the fast phase: no error and a dependency
/// vector.
pub open spec fn valid_fast_reply(r: FastAcceptReplyView) -> bool {
    r.err is None && r.deps is Some
}

/// A reply that lets the fast path commit: no error, the dependencies
/// echoed exactly as proposed, every one known committed.
pub open spec fn fast_ok_reply(r: FastAcceptReplyView, initial: Seq<InstanceId>) -> bool {
    &&& r.err is None
    &&& r.deps == Some(initial)
    &&& r.deps_committed.len() == initial.len()
    &&& forall|i: int| 0 <= i < r.deps_committed.len() ==> #[trigger] r.deps_committed[i]
}

/// How many replies let the fast path commit.
pub open spec fn count_fast_ok(rs: Seq<FastAcceptReplyView>, initial: Seq<InstanceId>) -> int
    decreases rs.len(),
{
    if rs.len() == 0 {
        0
    } else {
        count_fast_ok(rs.drop_last(), initial) + if fast_ok_reply(rs.last(), initial) {
            1int
        } else {
            0int
        }
    }
}

/// How many replies took part.
pub open spec fn count_valid(rs: Seq<FastAcceptReplyView>) -> int
    decreases rs.len(),
{
    if rs.len() == 0 {
        0
    } else {
        count_valid(rs.drop_last()) + if valid_fast_reply(rs.last()) {
            1int
        } else {
            0int
        }
    }
}

/// The union of the dependencies every valid reply reported, over a base.
pub open spec fn union_of_replies(rs: Seq<FastAcceptReplyView>, base: Map<int, int>) -> Map<
    int,
    int,
>
    decreases rs.len(),
{
    if rs.len() == 0 {
        base
    } else {
        let m = union_of_replies(rs.drop_last(), base);
        if valid_fast_reply(rs.last()) {
            union_map(m, dep_map(rs.last().deps->Some_0))
        } else {
            m
        }
    }
}

/// The union of the replies is exactly the elementwise per-replica
/// maximum: it records a replica iff the leader's proposal or some valid
/// reply does, it is at least every recorded index, and it is one of
/// them.
pub proof fn lemma_union_of_replies_is_max(
    rs: Seq<FastAcceptReplyView>,
    base: Map<int, int>,
    rid: int,
)
    ensures
        union_of_replies(rs, base).dom().contains(rid) <==> (base.dom().contains(rid) || exists|
            i: int,
        |
            0 <= i < rs.len() && valid_fast_reply(#[trigger] rs[i]) && dep_map(
                rs[i].deps->Some_0,
            ).dom().contains(rid)),
        union_of_replies(rs, base).dom().contains(rid) && base.dom().contains(rid)
            ==> union_of_replies(rs, base)[rid] >= base[rid],
        forall|i: int|
            0 <= i < rs.len() && valid_fast_reply(#[trigger] rs[i]) && dep_map(
                rs[i].deps->Some_0,
            ).dom().contains(rid) ==> union_of_replies(rs, base)[rid] >= dep_map(
                rs[i].deps->Some_0,
            )[rid],
        union_of_replies(rs, base).dom().contains(rid) ==> (base.dom().contains(rid)
            && union_of_replies(rs, base)[rid] == base[rid]) || exists|i: int|
            0 <= i < rs.len() && valid_fast_reply(#[trigger] rs[i]) && dep_map(
                rs[i].deps->Some_0,
            ).dom().contains(rid) && union_of_replies(rs, base)[rid] == dep_map(
                rs[i].deps->Some_0,
            )[rid],
    decreases rs.len(),
{
    if rs.len() > 0 {
        lemma_union_of_replies_is_max(rs.drop_last(), base, rid);
        let m = union_of_replies(rs.drop_last(), base);
        let u = union_of_replies(rs, base);
        assert(forall|i: int| 0 <= i < rs.len() - 1 ==> #[trigger] rs.drop_last()[i] == rs[i]);
        assert(rs[rs.len() - 1] == rs.last());
        if valid_fast_reply(rs.last()) {
            let d = dep_map(rs.last().deps->Some_0);
            assert(u == union_map(m, d));
            // domain
            assert(u.dom().contains(rid) == (m.dom().contains(rid) || d.dom().contains(rid)));
            if u.dom().contains(rid) && !(base.dom().contains(rid) && u[rid] == base[rid]) {
                // the value is attained by some reply
                if m.dom().contains(rid) && (!d.dom().contains(rid) || m[rid] >= d[rid]) {
                    assert(u[rid] == m[rid]);
                    if base.dom().contains(rid) && m[rid] == base[rid] {
                        assert(false);
                    } else {
                        let i = choose|i: int|
                            0 <= i < rs.drop_last().len() && valid_fast_reply(
                                #[trigger] rs.drop_last()[i],
                            ) && dep_map(rs.drop_last()[i].deps->Some_0).dom().contains(rid)
                                && m[rid] == dep_map(rs.drop_last()[i].deps->Some_0)[rid];
                        assert(rs[i] == rs.drop_last()[i]);
                        assert(valid_fast_reply(rs[i]) && dep_map(
                            rs[i].deps->Some_0,
                        ).dom().contains(rid) && u[rid] == dep_map(rs[i].deps->Some_0)[rid]);
                    }
                } else {
                    assert(u[rid] == d[rid]);
                    assert(valid_fast_reply(rs[rs.len() - 1]) && dep_map(
                        rs[rs.len() - 1].deps->Some_0,
                    ).dom().contains(rid) && u[rid] == dep_map(
                        rs[rs.len() - 1].deps->Some_0,
                    )[rid]);
                }
            }
            // the domain's reply witnesses carry over both ways
            if !base.dom().contains(rid) && u.dom().contains(rid) {
                if m.dom().contains(rid) {
                    let i = choose|i: int|
                        0 <= i < rs.drop_last().len() && valid_fast_reply(
                            #[trigger] rs.drop_last()[i],
                        ) && dep_map(rs.drop_last()[i].deps->Some_0).dom().contains(rid);
                    assert(rs[i] == rs.drop_last()[i]);
                    assert(valid_fast_reply(rs[i]) && dep_map(
                        rs[i].deps->Some_0,
                    ).dom().contains(rid));
                }
            }
            if exists|i: int|
                0 <= i < rs.len() && valid_fast_reply(#[trigger] rs[i]) && dep_map(
                    rs[i].deps->Some_0,
                ).dom().contains(rid) {
                let i = choose|i: int|
                    0 <= i < rs.len() && valid_fast_reply(#[trigger] rs[i]) && dep_map(
                        rs[i].deps->Some_0,
                    ).dom().contains(rid);
                if i < rs.len() - 1 {
                    assert(rs.drop_last()[i] == rs[i]);
                    assert(m.dom().contains(rid));
                }
                assert(u.dom().contains(rid));
            }
            // upper bound over every reply
            assert forall|i: int|
                0 <= i < rs.len() && valid_fast_reply(#[trigger] rs[i]) && dep_map(
                    rs[i].deps->Some_0,
                ).dom().contains(rid) implies u[rid] >= dep_map(rs[i].deps->Some_0)[rid] by {
                if i < rs.len() - 1 {
                    assert(rs.drop_last()[i] == rs[i]);
                    assert(m[rid] >= dep_map(rs[i].deps->Some_0)[rid]);
                }
            }
        } else {
            assert(u == m);
            if exists|i: int|
                0 <= i < rs.len() && valid_fast_reply(#[trigger] rs[i]) && dep_map(
                    rs[i].deps->Some_0,
                ).dom().contains(rid) {
                let i = choose|i: int|
                    0 <= i < rs.len() && valid_fast_reply(#[trigger] rs[i]) && dep_map(
                        rs[i].deps->Some_0,
                    ).dom().contains(rid);
                assert(i < rs.len() - 1);
                assert(rs.drop_last()[i] == rs[i]);
                assert(m.dom().contains(rid));
            }
            if u.dom().contains(rid) && !(base.dom().contains(rid) && u[rid] == base[rid]) {
                let i = choose|i: int|
                    0 <= i < rs.drop_last().len() && valid_fast_reply(#[trigger] rs.drop_last()[i])
                        && dep_map(rs.drop_last()[i].deps->Some_0).dom().contains(rid) && m[rid]
                        == dep_map(rs.drop_last()[i].deps->Some_0)[rid];
                assert(rs[i] == rs.drop_last()[i]);
                assert(valid_fast_reply(rs[i]) && dep_map(rs[i].deps->Some_0).dom().contains(rid)
                    && u[rid] == dep_map(rs[i].deps->Some_0)[rid]);
            }
            if !base.dom().contains(rid) && u.dom().contains(rid) {
                let i = choose|i: int|
                    0 <= i < rs.drop_last().len() && valid_fast_reply(#[trigger] rs.drop_last()[i])
                        && dep_map(rs.drop_last()[i].deps->Some_0).dom().contains(rid);
                assert(rs[i] == rs.drop_last()[i]);
                assert(valid_fast_reply(rs[i]) && dep_map(rs[i].deps->Some_0).dom().contains(rid));
            }
            assert forall|i: int|
                0 <= i < rs.len() && valid_fast_reply(#[trigger] rs[i]) && dep_map(
                    rs[i].deps->Some_0,
                ).dom().contains(rid) implies u[rid] >= dep_map(rs[i].deps->Some_0)[rid] by {
                assert(i < rs.len() - 1);
                assert(rs.drop_last()[i] == rs[i]);
                assert(m[rid] >= dep_map(rs[i].deps->Some_0)[rid]);
            }
        }
    }
}

/// The vector of the union fold: the proposal's entries in their order,
/// raised and extended by each valid reply in turn.
pub open spec fn union_vec_of_replies(
    rs: Seq<FastAcceptReplyView>,
    base: Seq<InstanceId>,
) -> Seq<InstanceId>
    decreases rs.len(),
{
    if rs.len() == 0 {
        base
    } else {
        let v = union_vec_of_replies(rs.drop_last(), base);
        if valid_fast_reply(rs.last()) {
            crate::deps::union_vec(v, rs.last().deps->Some_0)
        } else {
            v
        }
    }
}

/// The vector of the recovery union fold.
pub open spec fn union_vec_of_prepare_replies(
    rs: Seq<PrepareReplyView>,
    base: Seq<InstanceId>,
) -> Seq<InstanceId>
    decreases rs.len(),
{
    if rs.len() == 0 {
        base
    } else {
        let v = union_vec_of_prepare_replies(rs.drop_last(), base);
        if valid_prepare_reply(rs.last()) && rs.last().deps is Some {
            crate::deps::union_vec(v, rs.last().deps->Some_0)
        } else {
            v
        }
    }
}

/// The coordinator's decision after a phase's replies.
#[derive(Debug, PartialEq, Eq)]
pub enum PathDecision {
    /// Commit directly with this final dependency vector.
    CommitNow(InstanceIdVec),
    /// Run the slow phase to accept this final dependency vector.
    RunAccept(InstanceIdVec),
}

/// How many slow-phase replies carried no error.
pub open spec fn count_accept_ok(rs: Seq<AcceptReplyView>) -> int
    decreases rs.len(),
{
    if rs.len() == 0 {
        0
    } else {
        count_accept_ok(rs.drop_last()) + if rs.last().err is None {
            1int
        } else {
            0int
        }
    }
}

/// A recovery reply that took part: no error.
pub open spec fn valid_prepare_reply(r: PrepareReplyView) -> bool {
    r.err is None
}

/// A recovery reply showing an already committed value.
pub open spec fn committed_prepare_reply(r: PrepareReplyView) -> bool {
    r.err is None && r.committed && r.final_deps is Some
}

/// How many recovery replies echo exactly the proposed dependencies.
pub open spec fn count_prepare_initial(rs: Seq<PrepareReplyView>, initial: Seq<InstanceId>) -> int
    decreases rs.len(),
{
    if rs.len() == 0 {
        0
    } else {
        count_prepare_initial(rs.drop_last(), initial) + if rs.last().err is None && rs.last().deps
            == Some(initial) {
            1int
        } else {
            0int
        }
    }
}

/// How many recovery replies took part.
pub open spec fn count_prepare_valid(rs: Seq<PrepareReplyView>) -> int
    decreases rs.len(),
{
    if rs.len() == 0 {
        0
    } else {
        count_prepare_valid(rs.drop_last()) + if valid_prepare_reply(rs.last()) {
            1int
        } else {
            0int
        }
    }
}

/// The union of the dependencies every valid recovery reply reported,
/// over a base.
pub open spec fn union_of_prepare_replies(rs: Seq<PrepareReplyView>, base: Map<int, int>) -> Map<
    int,
    int,
>
    decreases rs.len(),
{
    if rs.len() == 0 {
        base
    } else {
        let m = union_of_prepare_replies(rs.drop_last(), base);
        if valid_prepare_reply(rs.last()) && rs.last().deps is Some {
            union_map(m, dep_map(rs.last().deps->Some_0))
        } else {
            m
        }
    }
}

impl Replication {
    /// A coordinator for a group: classic quorum `n/2 + 1`, fast quorum
    /// `n - (n-1)/2`.
    pub fn new(leader_id: ReplicaId, group: &Vec<ReplicaId>) -> (r: Replication)
        requires
            1 <= group@.len() <= 0x7fff_ffff,
        ensures
            r.leader_id == leader_id,
            r.n == group@.len(),
            r.quorum == r.n / 2 + 1,
            r.fast_quorum == r.n - (r.n - 1) / 2,
    {
        let n = group.len() as i64;
        Replication {
            leader_id,
            n,
            quorum: crate::quorums::quorum(n),
            fast_quorum: crate::quorums::fast_quorum(n),
        }
    }

    /// Opens a new locally led instance: allocates the next index, takes
    /// as proposed dependencies the highest instance this replica has
    /// seen from each group member, and writes the instance locally (the
    /// leader's own fast-phase vote).
    pub fn start_instance(&self, replica: &mut Replica, cmds: &Vec<Command>) -> (inst: Instance)
        requires
            old(replica).wf(),
            old(replica).inst_idx < i64::MAX,
            forall|i: int, j: int|
                0 <= i < j < old(replica).group_replica_ids@.len() ==> #[trigger] old(
                    replica,
                ).group_replica_ids@[i] != #[trigger] old(replica).group_replica_ids@[j],
        ensures
            final(replica).wf(),
            final(replica).inst_idx == old(replica).inst_idx + 1,
            final(replica).replica_id == old(replica).replica_id,
            final(replica).group_replica_ids == old(replica).group_replica_ids,
            final(replica).storage.kv_state() == old(replica).storage.kv_state(),
            ({
                let iid = InstanceId {
                    replica_id: old(replica).replica_id,
                    idx: (old(replica).inst_idx + 1) as i64,
                };
                let group = old(replica).group_replica_ids@;
                &&& inst@.instance_id == Some(iid)
                &&& inst@.ballot == Some(
                    BallotNum { epoch: 0, num: 0, replica_id: old(replica).replica_id },
                )
                &&& inst@.last_ballot is None
                &&& inst@.cmds == cmds.deep_view()
                &&& inst@.initial_deps is Some
                &&& inst@.deps == inst@.initial_deps
                &&& inst@.final_deps is None
                &&& !inst@.committed
                &&& !inst@.executed
                &&& ({
                    let d = inst@.initial_deps->Some_0;
                    &&& d.len() == group.len()
                    &&& forall|i: int| 0 <= i < d.len() ==> #[trigger] d[i].replica_id == group[i]
                    &&& forall|i: int|
                        0 <= i < d.len() ==> is_max_idx(
                            old(replica).insts(),
                            group[i],
                            #[trigger] d[i].idx,
                        )
                })
                &&& final(replica).insts() == old(replica).insts().insert(iid, inst@)
            }),
    {
        let idx = self_next_idx(replica);
        proof {
            assert(replica.storage == old(replica).storage);
            assert(replica.storage.wf());
            assert forall|x: InstanceId|
                replica.insts().dom().contains(x) implies crate::instance::inst_wf(
                #[trigger] replica.insts()[x],
            ) by {
                assert(replica.insts() == old(replica).insts());
                assert(old(replica).insts()[x] == replica.insts()[x]);
            }
            assert(replica.wf());
        }
        let iid = InstanceId { replica_id: replica.replica_id, idx };
        let mut ids: Vec<InstanceId> = Vec::new();
        let gn = replica.group_replica_ids.len();
        let mut k: usize = 0;
        while k < gn
            invariant
                replica.wf(),
                *replica == (Replica { inst_idx: idx, ..*old(replica) }),
                idx == old(replica).inst_idx + 1,
                gn == replica.group_replica_ids@.len(),
                0 <= k <= gn,
                ids@.len() == k,
                forall|i: int|
                    0 <= i < k ==> #[trigger] ids@[i].replica_id == replica.group_replica_ids@[i],
                forall|i: int|
                    0 <= i < k ==> is_max_idx(
                        replica.insts(),
                        replica.group_replica_ids@[i],
                        #[trigger] ids@[i].idx,
                    ),
            decreases gn - k,
        {
            let rid = replica.group_replica_ids[k];
            let m = replica.storage.max_idx_of(rid);
            ids.push(InstanceId { replica_id: rid, idx: m });
            k += 1;
        }
        proof {
            assert forall|i: int, j: int| 0 <= i < j < ids@.len() implies #[trigger] ids@[i].replica_id
                != #[trigger] ids@[j].replica_id by {
                assert(replica.group_replica_ids@[i] != replica.group_replica_ids@[j]);
            }
        }
        let initial = InstanceIdVec { ids };
        let deps = initial.clone();
        let inst = Instance {
            instance_id: Some(iid),
            last_ballot: None,
            ballot: Some(BallotNum { epoch: 0, num: 0, replica_id: replica.replica_id }),
            cmds: clone_cmds(cmds),
            initial_deps: Some(initial),
            deps: Some(deps),
            final_deps: None,
            committed: false,
            executed: false,
        };
        let _ = replica.storage.set_obj(iid, &inst);
        proof {
            assert(crate::instance::inst_wf(inst@));
            assert forall|x: InstanceId|
                replica.insts().dom().contains(x) implies crate::instance::inst_wf(
                #[trigger] replica.insts()[x],
            ) by {
                if x != iid {
                    assert(replica.insts()[x] == old(replica).insts()[x]);
                }
            }
        }
        inst
    }

    /// Decides the path after the fast phase: commit when at least a fast
    /// quorum echoed the proposal with everything committed; fall to the
    /// slow phase with the union of all reported dependencies when at
    /// least a classic quorum took part; fail otherwise.
    pub fn decide_fast_path(&self, replies: &Vec<FastAcceptReply>, initial_deps: &InstanceIdVec) -> (r:
        Result<PathDecision, ReplicationError>)
        requires
            replies@.len() <= 0x7fff_ffff,
            iids_wf(initial_deps@),
            forall|i: int|
                0 <= i < replies.deep_view().len() && (#[trigger] replies.deep_view()[i]).deps
                    is Some ==> iids_wf(replies.deep_view()[i].deps->Some_0),
        ensures
            ({
                let rv = replies.deep_view();
                let cok = count_fast_ok(rv, initial_deps@);
                let cval = count_valid(rv);
                if cok >= self.fast_quorum {
                    r matches Ok(PathDecision::CommitNow(d)) && d@ == initial_deps@
                } else if cval >= self.quorum {
                    r matches Ok(PathDecision::RunAccept(d)) && iids_wf(d@) && d@
                        == union_vec_of_replies(rv, initial_deps@) && dep_map(d@)
                        == union_of_replies(rv, dep_map(initial_deps@))
                } else {
                    r == Err::<PathDecision, ReplicationError>(
                        ReplicationError::NotEnoughQuorum { want: self.quorum, got: cval as i64 },
                    )
                }
            }),
    {
        let ghost rv = replies.deep_view();
        let n = replies.len();
        let mut cok: i64 = 0;
        let mut cval: i64 = 0;
        let mut u = initial_deps.clone();
        let mut k: usize = 0;
        proof {
            assert(rv.take(0) =~= Seq::<FastAcceptReplyView>::empty());
        }
        while k < n
            invariant
                rv == replies.deep_view(),
                n == rv.len(),
                iids_wf(initial_deps@),
                forall|i: int|
                    0 <= i < rv.len() && (#[trigger] rv[i]).deps is Some ==> iids_wf(
                        rv[i].deps->Some_0,
                    ),
                0 <= k <= n,
                cok == count_fast_ok(rv.take(k as int), initial_deps@),
                cval == count_valid(rv.take(k as int)),
                0 <= cok <= k,
                0 <= cval <= k,
                n <= 0x7fff_ffff,
                iids_wf(u@),
                u@ == union_vec_of_replies(rv.take(k as int), initial_deps@),
                dep_map(u@) == union_of_replies(rv.take(k as int), dep_map(initial_deps@)),
            decreases n - k,
        {
            proof {
                assert(rv.take(k as int + 1).drop_last() =~= rv.take(k as int));
                assert(rv.take(k as int + 1).last() == rv[k as int]);
            }
            let reply = &replies[k];
            let mut is_valid = false;
            match (&reply.err, &reply.deps) {
                (Option::None, Option::Some(d)) => {
                    is_valid = true;
                    let nu = u.union(d);
                    u = nu;
                },
                _ => {},
            }
            proof {
                assert(is_valid == valid_fast_reply(rv[k as int]));
            }
            if is_valid {
                cval += 1;
            }
            let mut is_fast_ok = false;
            if is_valid {
                match (&reply.err, &reply.deps) {
                    (Option::None, Option::Some(d)) => {
                        if iid_vec_eq(d, initial_deps) && reply.deps_committed.len()
                            == initial_deps.len() && all_true(&reply.deps_committed) {
                            is_fast_ok = true;
                        }
                    },
                    _ => {},
                }
            }
            proof {
                assert(is_fast_ok == fast_ok_reply(rv[k as int], initial_deps@));
            }
            if is_fast_ok {
                cok += 1;
            }
            k += 1;
        }
        proof {
            assert(rv.take(n as int) =~= rv);
        }
        if cok >= self.fast_quorum {
            Ok(PathDecision::CommitNow(initial_deps.clone()))
        } else if cval >= self.quorum {
            Ok(PathDecision::RunAccept(u))
        } else {
            Err(ReplicationError::NotEnoughQuorum { want: self.quorum, got: cval })
        }
    }

    /// Decides after the slow phase: done when at least a classic quorum
    /// answered without error, a quorum failure otherwise.
    pub fn decide_accept(&self, replies: &Vec<AcceptReply>) -> (r: Result<(), ReplicationError>)
        requires
            replies@.len() <= 0x7fff_ffff,
        ensures
            ({
                let c = count_accept_ok(replies.deep_view());
                if c >= self.quorum {
                    r is Ok
                } else {
                    r == Err::<(), ReplicationError>(
                        ReplicationError::NotEnoughQuorum { want: self.quorum, got: c as i64 },
                    )
                }
            }),
    {
        let ghost rv = replies.deep_view();
        let n = replies.len();
        let mut c: i64 = 0;
        let mut k: usize = 0;
        proof {
            assert(rv.take(0) =~= Seq::<AcceptReplyView>::empty());
        }
        while k < n
            invariant
                rv == replies.deep_view(),
                n == rv.len(),
                0 <= k <= n,
                c == count_accept_ok(rv.take(k as int)),
                0 <= c <= k,
                n <= 0x7fff_ffff,
            decreases n - k,
        {
            proof {
                assert(rv.take(k as int + 1).drop_last() =~= rv.take(k as int));
                assert(rv.take(k as int + 1).last() == rv[k as int]);
            }
            if replies[k].err.is_none() {
                c += 1;
            }
            k += 1;
        }
        proof {
            assert(rv.take(n as int) =~= rv);
        }
        if c >= self.quorum {
            Ok(())
        } else {
            Err(ReplicationError::NotEnoughQuorum { want: self.quorum, got: c })
        }
    }

    /// Decides recovery after gathering prepare replies: an already
    /// committed value is committed again as is; when a classic quorum
    /// echoes exactly the proposed dependencies, that value commits;
    /// otherwise a fresh slow phase runs with the union of everything
    /// reported.
    pub fn decide_prepare(&self, replies: &Vec<PrepareReply>, initial_deps: &InstanceIdVec) -> (r:
        Result<PathDecision, ReplicationError>)
        requires
            replies@.len() <= 0x7fff_ffff,
            iids_wf(initial_deps@),
            forall|i: int|
                0 <= i < replies.deep_view().len() && (#[trigger] replies.deep_view()[i]).deps
                    is Some ==> iids_wf(replies.deep_view()[i].deps->Some_0),
            forall|i: int|
                0 <= i < replies.deep_view().len() && (#[trigger] replies.deep_view()[i]).final_deps
                    is Some ==> iids_wf(replies.deep_view()[i].final_deps->Some_0),
        ensures
            ({
                let rv = replies.deep_view();
                if exists|i: int| 0 <= i < rv.len() && committed_prepare_reply(#[trigger] rv[i]) {
                    exists|i: int|
                        {
                            &&& 0 <= i < rv.len()
                            &&& committed_prepare_reply(#[trigger] rv[i])
                            &&& forall|j: int| 0 <= j < i ==> !committed_prepare_reply(#[trigger] rv[j])
                            &&& r matches Ok(PathDecision::CommitNow(d)) && d@
                                == rv[i].final_deps->Some_0
                        }
                } else if count_prepare_initial(rv, initial_deps@) >= self.quorum {
                    r matches Ok(PathDecision::CommitNow(d)) && d@ == initial_deps@
                } else if count_prepare_valid(rv) >= self.quorum {
                    r matches Ok(PathDecision::RunAccept(d)) && iids_wf(d@) && d@
                        == union_vec_of_prepare_replies(rv, initial_deps@) && dep_map(d@)
                        == union_of_prepare_replies(rv, dep_map(initial_deps@))
                } else {
                    r == Err::<PathDecision, ReplicationError>(
                        ReplicationError::NotEnoughQuorum {
                            want: self.quorum,
                            got: count_prepare_valid(rv) as i64,
                        },
                    )
                }
            }),
    {
        let ghost rv = replies.deep_view();
        let n = replies.len();
        // an already committed value wins
        let mut k: usize = 0;
        while k < n
            invariant
                rv == replies.deep_view(),
                n == rv.len(),
                forall|i: int|
                    0 <= i < rv.len() && (#[trigger] rv[i]).final_deps is Some ==> iids_wf(
                        rv[i].final_deps->Some_0,
                    ),
                0 <= k <= n,
                forall|j: int| 0 <= j < k ==> !committed_prepare_reply(#[trigger] rv[j]),
            decreases n - k,
        {
            let reply = &replies[k];
            if reply.err.is_none() && reply.committed {
                match &reply.final_deps {
                    Some(d) => {
                        proof {
                            assert(committed_prepare_reply(rv[k as int]));
                        }
                        return Ok(PathDecision::CommitNow(d.clone()));
                    },
                    None => {},
                }
            }
            proof {
                assert(!committed_prepare_reply(rv[k as int]));
            }
            k += 1;
        }
        // no committed value seen anywhere
        let mut cini: i64 = 0;
        let mut cval: i64 = 0;
        let mut u = initial_deps.clone();
        let mut t: usize = 0;
        proof {
            assert(rv.take(0) =~= Seq::<PrepareReplyView>::empty());
        }
        while t < n
            invariant
                rv == replies.deep_view(),
                n == rv.len(),
                iids_wf(initial_deps@),
                forall|i: int|
                    0 <= i < rv.len() && (#[trigger] rv[i]).deps is Some ==> iids_wf(
                        rv[i].deps->Some_0,
                    ),
                0 <= t <= n,
                cini == count_prepare_initial(rv.take(t as int), initial_deps@),
                cval == count_prepare_valid(rv.take(t as int)),
                0 <= cini <= t,
                0 <= cval <= t,
                n <= 0x7fff_ffff,
                iids_wf(u@),
                u@ == union_vec_of_prepare_replies(rv.take(t as int), initial_deps@),
                dep_map(u@) == union_of_prepare_replies(rv.take(t as int), dep_map(initial_deps@)),
            decreases n - t,
        {
            proof {
                assert(rv.take(t as int + 1).drop_last() =~= rv.take(t as int));
                assert(rv.take(t as int + 1).last() == rv[t as int]);
            }
            let reply = &replies[t];
            if reply.err.is_none() {
                cval += 1;
                match &reply.deps {
                    Some(d) => {
                        if iid_vec_eq(d, initial_deps) {
                            cini += 1;
                        }
                        let nu = u.union(d);
                        u = nu;
                    },
                    None => {},
                }
            }
            proof {
                assert(cval == count_prepare_valid(rv.take(t as int + 1)));
                assert(cini == count_prepare_initial(rv.take(t as int + 1), initial_deps@));
            }
            t += 1;
        }
        proof {
            assert(rv.take(n as int) =~= rv);
        }
        if cini >= self.quorum {
            Ok(PathDecision::CommitNow(initial_deps.clone()))
        } else if cval >= self.quorum {
            Ok(PathDecision::RunAccept(u))
        } else {
            Err(ReplicationError::NotEnoughQuorum { want: self.quorum, got: cval })
        }
    }
}

/// Allocates the next local instance index.
fn self_next_idx(replica: &mut Replica) -> (idx: i64)
    requires
        old(replica).inst_idx < i64::MAX,
    ensures
        idx == old(replica).inst_idx + 1,
        *final(replica) == (Replica { inst_idx: idx, ..*old(replica) }),
{
    replica.inst_idx = replica.inst_idx + 1;
    replica.inst_idx
}

/// Positional equality of two dependency vectors.
pub fn iid_vec_eq(a: &InstanceIdVec, b: &InstanceIdVec) -> (r: bool)
    ensures
        r == (a@ == b@),
{
    let n = a.ids.len();
    if n != b.ids.len() {
        proof {
            assert(a@ != b@);
        }
        return false;
    }
    let mut k: usize = 0;
    while k < n
        invariant
            n == a@.len(),
            n == b@.len(),
            0 <= k <= n,
            forall|j: int| 0 <= j < k ==> a@[j] == b@[j],
        decreases n - k,
    {
        if a.ids[k] != b.ids[k] {
            proof {
                assert(a@[k as int] != b@[k as int]);
            }
            return false;
        }
        k += 1;
    }
    proof {
        assert(a@ =~= b@);
    }
    true
}

/// Whether every flag of a sequence is set.
pub fn all_true(v: &Vec<bool>) -> (r: bool)
    ensures
        r == (forall|i: int| 0 <= i < v@.len() ==> #[trigger] v@[i]),
{
    let n = v.len();
    let mut k: usize = 0;
    while k < n
        invariant
            n == v@.len(),
            0 <= k <= n,
            forall|j: int| 0 <= j < k ==> #[trigger] v@[j],
        decreases n - k,
    {
        if !v[k] {
            return false;
        }
        k += 1;
    }
    true
}

/// Classifies a reply's ballot against the one the request carried: a
/// strictly larger last ballot is stale and aborts the attempt.
pub fn check_reply_ballot(sent: BallotNum, last: &Option<BallotNum>) -> (r: Result<
    (),
    HandlerError,
>)
    ensures
        match r {
            Ok(()) => !opt_ballot_lt(Some(sent), *last),
            Err(e) => opt_ballot_lt(Some(sent), *last) && e == HandlerError::StaleBallot(
                sent,
                last->Some_0,
            ),
        },
{
    match last {
        Some(lb) => {
            if sent.lt(lb) {
                Err(HandlerError::StaleBallot(sent, *lb))
            } else {
                Ok(())
            }
        },
        None => Ok(()),
    }
}

/// Classifies a reply's sender against those already counted: a repeated
/// sender is a duplicate and is discarded.
pub fn check_dup(seen: &Vec<ReplicaId>, from: ReplicaId) -> (r: Result<(), HandlerError>)
    ensures
        match r {
            Ok(()) => forall|i: int| 0 <= i < seen@.len() ==> #[trigger] seen@[i] != from,
            Err(e) => (exists|i: int| 0 <= i < seen@.len() && #[trigger] seen@[i] == from) && e
                == HandlerError::Dup(from),
        },
{
    let n = seen.len();
    let mut k: usize = 0;
    while k < n
        invariant
            n == seen@.len(),
            0 <= k <= n,
            forall|j: int| 0 <= j < k ==> #[trigger] seen@[j] != from,
        decreases n - k,
    {
        if seen[k] == from {
            return Err(HandlerError::Dup(from));
        }
        k += 1;
    }
    Ok(())
}

/// Classifies a reply's phase against the instance's: a reply for a
/// phase the instance has left is delayed and is discarded.
pub fn check_reply_phase(inst_phase: InstanceStatus, reply_phase: InstanceStatus) -> (r: Result<
    (),
    HandlerError,
>)
    ensures
        match r {
            Ok(()) => status_rank(reply_phase) >= status_rank(inst_phase),
            Err(e) => status_rank(reply_phase) < status_rank(inst_phase) && e
                == HandlerError::DelayedReply(inst_phase, reply_phase),
        },
{
    let ir = status_rank_exec(inst_phase);
    let rr = status_rank_exec(reply_phase);
    if rr < ir {
        Err(HandlerError::DelayedReply(inst_phase, reply_phase))
    } else {
        Ok(())
    }
}

/// The rank of a lifecycle phase.
fn status_rank_exec(s: InstanceStatus) -> (r: i32)
    ensures
        r as int == status_rank(s),
{
    match s {
        InstanceStatus::Empty => 0,
        InstanceStatus::PreAccepted => 1,
        InstanceStatus::Accepted => 2,
        InstanceStatus::Committed => 3,
        InstanceStatus::Executed => 4,
    }
}

} // verus!
