//! Ready-made instances and replicas for exercising the handlers, and
//! checks over replies and stored instances.

use vstd::prelude::*;

use crate::command::bytes_eq;
use crate::command::Command;
use crate::command::OpCode;
use crate::deps::InstanceIdVec;
use crate::engine::MemEngine;
use crate::ids::BallotNum;
use crate::ids::InstanceId;
use crate::ids::ReplicaId;
use crate::instance::inst_wf;
use crate::instance::opt_iids_view;
use crate::instance::Instance;
use crate::instance::InstanceView;
use crate::errors::QErrorView;
use crate::errors::StorageFailure;
use crate::ids::opt_ballot_lt;
use crate::message::FastAcceptReply;
use crate::message::FastAcceptRequestView;
use crate::message::MakeRequest;
use crate::message::ReplyCommon;
use crate::message::RequestCommon;
use crate::replica::cmn_ok;
use crate::replica::cmn_qerror;
use crate::replica::dep_committed_flag;
use crate::replica::fast_accept_dep_vec;
use crate::replica::fast_accept_local;
use crate::replica::Replica;
use crate::replica::ReplicaConf;
use crate::replica::ReplicaStatus;

verus! {

/// A log seeded with the given instances, in order.
pub open spec fn seeded(
    m: Map<InstanceId, InstanceView>,
    s: Seq<(InstanceId, InstanceView)>,
) -> Map<InstanceId, InstanceView>
    decreases s.len(),
{
    if s.len() == 0 {
        m
    } else {
        seeded(m, s.drop_last()).insert(s.last().0, s.last().1)
    }
}

/// An instance led by the given replica: two commands, ballot `(2,2)`,
/// proposed dependencies one per replica, a provisional vector, a last
/// ballot of `(1,2)` and final dependencies already set.
pub fn new_foo_inst(leader_id: i64) -> (r: Instance)
    ensures
        inst_wf(r@),
        r@.instance_id == Some(InstanceId { replica_id: leader_id, idx: 1 }),
        r@.last_ballot == Some(BallotNum { epoch: 1, num: 2, replica_id: leader_id }),
        r@.ballot == Some(BallotNum { epoch: 2, num: 2, replica_id: leader_id }),
        r@.cmds.len() == 2,
        r@.cmds[0].op == OpCode::NoOp,
        r@.cmds[1].op == OpCode::Get,
        r@.initial_deps == Some(
            seq![
                InstanceId { replica_id: 1, idx: 10 },
                InstanceId { replica_id: 2, idx: 20 },
                InstanceId { replica_id: 3, idx: 30 },
            ],
        ),
        r@.deps == Some(seq![InstanceId { replica_id: 2, idx: 20 }]),
        r@.final_deps == Some(seq![InstanceId { replica_id: 3, idx: 30 }]),
        !r@.committed,
        !r@.executed,
{
    let cmds = vec![
        Command::of(OpCode::NoOp, "k1".as_bytes(), "v1".as_bytes()),
        Command::of(OpCode::Get, "k2".as_bytes(), "v2".as_bytes()),
    ];
    let initial_deps = InstanceIdVec::from_pairs(&vec![(1i64, 10i64), (2, 20), (3, 30)]);
    let deps = InstanceIdVec::from_pairs(&vec![(2i64, 20i64)]);
    let final_deps = InstanceIdVec::from_pairs(&vec![(3i64, 30i64)]);
    let r = Instance {
        instance_id: Some(InstanceId { replica_id: leader_id, idx: 1 }),
        last_ballot: Some(BallotNum { epoch: 1, num: 2, replica_id: leader_id }),
        ballot: Some(BallotNum { epoch: 2, num: 2, replica_id: leader_id }),
        cmds,
        initial_deps: Some(initial_deps),
        deps: Some(deps),
        final_deps: Some(final_deps),
        committed: false,
        executed: false,
    };
    proof {
        assert(r@.initial_deps->Some_0 =~= seq![
            InstanceId { replica_id: 1, idx: 10 },
            InstanceId { replica_id: 2, idx: 20 },
            InstanceId { replica_id: 3, idx: 30 },
        ]);
        assert(r@.deps->Some_0 =~= seq![InstanceId { replica_id: 2, idx: 20 }]);
        assert(r@.final_deps->Some_0 =~= seq![InstanceId { replica_id: 3, idx: 30 }]);
    }
    r
}

/// A running replica in the three-member group `[0, 1, 2]`, its log
/// seeded with the given instances.
pub fn new_foo_replica(replica_id: i64, insts: &Vec<(InstanceId, Instance)>) -> (r: Replica)
    requires
        forall|i: int| 0 <= i < insts@.len() ==> inst_wf((#[trigger] insts@[i]).1@),
    ensures
        r.wf(),
        r.replica_id == replica_id,
        r.group_replica_ids@ == seq![0i64, 1i64, 2i64],
        r.status == ReplicaStatus::Running,
        r.inst_idx == 0,
        r.latest_cp == (InstanceId { replica_id: 1, idx: 1 }),
        r.insts() == seeded(
            Map::<InstanceId, InstanceView>::empty(),
            insts@.map_values(|p: (InstanceId, Instance)| (p.0, p.1@)),
        ),
{
    let mut r = Replica {
        replica_id,
        group_replica_ids: vec![0, 1, 2],
        status: ReplicaStatus::Running,
        peers: Vec::new(),
        conf: ReplicaConf {  },
        inst_idx: 0,
        latest_cp: InstanceId { replica_id: 1, idx: 1 },
        storage: MemEngine::new(),
        problem_inst_ids: Vec::new(),
    };
    proof {
        assert(r.group_replica_ids@ =~= seq![0i64, 1i64, 2i64]);
    }
    let ghost pairs = insts@.map_values(|p: (InstanceId, Instance)| (p.0, p.1@));
    let n = insts.len();
    let mut k: usize = 0;
    proof {
        assert(r.insts() =~= seeded(
            Map::<InstanceId, InstanceView>::empty(),
            pairs.take(0),
        ));
    }
    while k < n
        invariant
            forall|i: int| 0 <= i < insts@.len() ==> inst_wf((#[trigger] insts@[i]).1@),
            pairs == insts@.map_values(|p: (InstanceId, Instance)| (p.0, p.1@)),
            n == insts@.len(),
            0 <= k <= n,
            r.wf(),
            r.replica_id == replica_id,
            r.group_replica_ids@ == seq![0i64, 1i64, 2i64],
            r.status == ReplicaStatus::Running,
            r.inst_idx == 0,
            r.latest_cp == (InstanceId { replica_id: 1, idx: 1 }),
            r.insts() == seeded(Map::<InstanceId, InstanceView>::empty(), pairs.take(k as int)),
        decreases n - k,
    {
        proof {
            assert(pairs.take(k as int + 1).drop_last() =~= pairs.take(k as int));
            assert(pairs.take(k as int + 1).last() == pairs[k as int]);
        }
        let ghost pre = r.insts();
        let _ = r.storage.set_obj(insts[k].0, &insts[k].1);
        proof {
            assert(r.insts() =~= pre.insert(pairs[k as int].0, pairs[k as int].1));
            assert(inst_wf(insts@[k as int].1@));
            assert forall|x: InstanceId| r.insts().dom().contains(x) implies inst_wf(
                #[trigger] r.insts()[x],
            ) by {
                if x != pairs[k as int].0 {
                    assert(r.insts()[x] == pre[x]);
                }
            }
        }
        k += 1;
    }
    proof {
        assert(pairs.take(n as int) =~= pairs);
    }
    r
}

/// Builds a replica holding one instance and serves it the fast-phase
/// request for another; hands back the reply, which mirrors the
/// handler's contract on that one-instance log.
pub fn _handle_fast_accept_request(iid: InstanceId, inst: Instance, req_inst: Instance) -> (r:
    FastAcceptReply)
    requires
        inst_wf(inst@),
        inst_wf(req_inst@),
    ensures
        ({
            let store = Map::<InstanceId, InstanceView>::empty().insert(iid, inst@);
            let cmn = Some(
                RequestCommon {
                    to_replica_id: 1,
                    ballot: req_inst@.ballot,
                    instance_id: req_inst@.instance_id,
                },
            );
            let reqv = FastAcceptRequestView {
                cmn,
                cmds: req_inst@.cmds,
                initial_deps: req_inst@.initial_deps,
                deps_committed: seq![false],
            };
            if !cmn_ok(1, cmn) {
                r@.err == Some(cmn_qerror(1, cmn)) && r@.cmn is None
            } else {
                let blt = cmn->Some_0.ballot->Some_0;
                let riid = cmn->Some_0.instance_id->Some_0;
                let pre = fast_accept_local(store, riid, reqv, blt);
                if store.dom().contains(riid) && (pre.deps is None || pre.instance_id is None) {
                    r@.err == Some(QErrorView { req: None, sto: Some(StorageFailure {  }) })
                } else if opt_ballot_lt(Some(blt), pre.ballot) {
                    &&& r@.err is None
                    &&& r@.cmn == Some(
                        ReplyCommon { last_ballot: pre.ballot, instance_id: Some(riid) },
                    )
                    &&& r@.deps is None
                } else {
                    &&& r@.err is None
                    &&& r@.cmn == Some(
                        ReplyCommon { last_ballot: pre.ballot, instance_id: Some(riid) },
                    )
                    &&& r@.deps == Some(fast_accept_dep_vec(store, pre, reqv))
                    &&& r@.deps_committed.len() == fast_accept_dep_vec(store, pre, reqv).len()
                    &&& forall|t: int|
                        0 <= t < r@.deps_committed.len() ==> #[trigger] r@.deps_committed[t]
                            == dep_committed_flag(store, fast_accept_dep_vec(store, pre, reqv)[t])
                }
            }
        }),
{
    let insts = vec![(iid, inst)];
    let mut replica = new_foo_replica(1, &insts);
    proof {
        let pairs = insts@.map_values(|p: (InstanceId, Instance)| (p.0, p.1@));
        assert(pairs.len() == 1);
        assert(pairs.drop_last() =~= Seq::<(InstanceId, InstanceView)>::empty());
        assert(pairs.last() == (iid, insts@[0].1@));
        assert(replica.insts() == seeded(Map::<InstanceId, InstanceView>::empty(), pairs));
        assert(seeded(Map::<InstanceId, InstanceView>::empty(), pairs.drop_last())
            == Map::<InstanceId, InstanceView>::empty());
        assert(replica.insts() =~= Map::<InstanceId, InstanceView>::empty().insert(
            iid,
            insts@[0].1@,
        ));
    }
    let dc = vec![false];
    let req = MakeRequest::fast_accept(1, &req_inst, dc.as_slice());
    proof {
        assert(dc@ =~= seq![false]);
        assert(req@.deps_committed =~= seq![false]);
    }
    replica.handle_fast_accept(&req)
}

/// Whether a reply header carries the expected instance id and last
/// ballot.
pub fn _test_repl_cmn_ok(cmn: &ReplyCommon, iid: InstanceId, last: Option<BallotNum>) -> (r: bool)
    ensures
        r == (cmn.instance_id == Some(iid) && cmn.last_ballot == last),
{
    let id_ok = match &cmn.instance_id {
        Some(i) => *i == iid,
        None => false,
    };
    let last_ok = match (&cmn.last_ballot, &last) {
        (Option::None, Option::None) => true,
        (Option::Some(a), Option::Some(b)) => *a == *b,
        _ => false,
    };
    id_ok && last_ok
}

/// Whether the replica stores, under the given id, an instance with the
/// expected identity, ballots, commands and final dependencies.
pub fn _test_get_inst(
    replica: &Replica,
    iid: InstanceId,
    blt: Option<BallotNum>,
    last: Option<BallotNum>,
    cmds: &Vec<Command>,
    final_deps: &Option<InstanceIdVec>,
) -> (r: bool)
    requires
        replica.wf(),
    ensures
        r == ({
            &&& replica.insts().dom().contains(iid)
            &&& replica.insts()[iid].instance_id == Some(iid)
            &&& replica.insts()[iid].ballot == blt
            &&& replica.insts()[iid].last_ballot == last
            &&& replica.insts()[iid].cmds == cmds.deep_view()
            &&& replica.insts()[iid].final_deps == opt_iids_view(*final_deps)
        }),
{
    let got = match replica.storage.get_instance(iid) {
        Some(g) => g,
        None => {
            return false;
        },
    };
    let id_ok = match &got.instance_id {
        Some(i) => *i == iid,
        None => false,
    };
    let blt_ok = opt_ballot_eq(&got.ballot, &blt);
    let last_ok = opt_ballot_eq(&got.last_ballot, &last);
    let cmds_ok = cmds_eq(&got.cmds, cmds);
    let fdeps_ok = opt_iids_eq(&got.final_deps, final_deps);
    id_ok && blt_ok && last_ok && cmds_ok && fdeps_ok
}

/// Equality of optional ballots.
pub fn opt_ballot_eq(a: &Option<BallotNum>, b: &Option<BallotNum>) -> (r: bool)
    ensures
        r == (*a == *b),
{
    match (a, b) {
        (Option::None, Option::None) => true,
        (Option::Some(x), Option::Some(y)) => *x == *y,
        _ => false,
    }
}

/// Value equality of two command batches.
pub fn cmds_eq(a: &Vec<Command>, b: &Vec<Command>) -> (r: bool)
    ensures
        r == (a.deep_view() == b.deep_view()),
{
    let n = a.len();
    if n != b.len() {
        proof {
            assert(a.deep_view().len() != b.deep_view().len());
        }
        return false;
    }
    let mut k: usize = 0;
    while k < n
        invariant
            n == a@.len(),
            n == b@.len(),
            0 <= k <= n,
            forall|j: int| 0 <= j < k ==> a.deep_view()[j] == b.deep_view()[j],
        decreases n - k,
    {
        let same_op = match (&a[k].op, &b[k].op) {
            (OpCode::NoOp, OpCode::NoOp) => true,
            (OpCode::Get, OpCode::Get) => true,
            (OpCode::Put, OpCode::Put) => true,
            _ => false,
        };
        if !same_op || !bytes_eq(&a[k].key, &b[k].key) || !bytes_eq(&a[k].value, &b[k].value) {
            proof {
                assert(a.deep_view()[k as int] != b.deep_view()[k as int]);
            }
            return false;
        }
        proof {
            assert(a.deep_view()[k as int] == b.deep_view()[k as int]);
        }
        k += 1;
    }
    proof {
        assert(a.deep_view() =~= b.deep_view());
    }
    true
}

/// Value equality of two optional dependency vectors.
pub fn opt_iids_eq(a: &Option<InstanceIdVec>, b: &Option<InstanceIdVec>) -> (r: bool)
    ensures
        r == (opt_iids_view(*a) == opt_iids_view(*b)),
{
    match (a, b) {
        (Option::None, Option::None) => true,
        (Option::Some(x), Option::Some(y)) => crate::coordinator::iid_vec_eq(x, y),
        _ => false,
    }
}

} // verus!
