//! End-to-end protocol scenarios over three replicas: the fast path, the
//! fall back to the slow path, commits arriving early, stale ballots,
//! recovery, and deterministic execution of conflicting writes.

use qpaxos::command::Command;
use qpaxos::command::OpCode;
use qpaxos::coordinator::PathDecision;
use qpaxos::coordinator::Replication;
use qpaxos::coordinator::check_reply_ballot;
use qpaxos::coordinator::check_dup;
use qpaxos::coordinator::check_reply_phase;
use qpaxos::deps::InstanceIdVec;
use qpaxos::engine::DBColumnFamily;
use qpaxos::errors::HandlerError;
use qpaxos::errors::ReplicationError;
use qpaxos::fixtures::new_foo_replica;
use qpaxos::ids::BallotNum;
use qpaxos::ids::InstanceId;
use qpaxos::instance::InstanceStatus;
use qpaxos::message::MakeRequest;
use qpaxos::replica::Replica;

fn three_replicas() -> (Replica, Replica, Replica) {
    let mut r1 = new_foo_replica(1, &vec![]);
    let mut r2 = new_foo_replica(2, &vec![]);
    let mut r3 = new_foo_replica(3, &vec![]);
    r1.group_replica_ids = vec![1, 2, 3];
    r2.group_replica_ids = vec![1, 2, 3];
    r3.group_replica_ids = vec![1, 2, 3];
    (r1, r2, r3)
}

/// The single-key, no-conflict fast path: both peers echo the proposal
/// with every dependency satisfied, the leader commits directly, and the
/// write is visible everywhere after execution.
#[test]
fn test_fast_path_commit() {
    let (mut r1, mut r2, mut r3) = three_replicas();
    let repl = Replication::new(1, &r1.group_replica_ids);
    assert_eq!(3, repl.n);
    assert_eq!(2, repl.quorum);
    assert_eq!(2, repl.fast_quorum);

    let cmds = vec![Command::of(OpCode::Put, b"k1", b"v1")];
    let mut inst = repl.start_instance(&mut r1, &cmds);
    let iid = inst.instance_id.unwrap();
    assert_eq!(InstanceId::new(1, 1), iid);
    let initial = inst.initial_deps.clone().unwrap();
    assert_eq!(
        vec![InstanceId::new(1, 0), InstanceId::new(2, 0), InstanceId::new(3, 0)],
        initial.ids
    );

    let dc = vec![false, false, false];
    let req2 = MakeRequest::fast_accept(2, &inst, &dc);
    let req3 = MakeRequest::fast_accept(3, &inst, &dc);
    let a2 = r2.handle_fast_accept(&req2);
    let a3 = r3.handle_fast_accept(&req3);
    assert_eq!(None, a2.err);
    assert_eq!(Some(initial.clone()), a2.deps);
    assert_eq!(vec![true, true, true], a2.deps_committed);
    assert_eq!(Some(initial.clone()), a3.deps);
    assert_eq!(vec![true, true, true], a3.deps_committed);

    let decision = repl.decide_fast_path(&vec![a2, a3], &initial).unwrap();
    let final_deps = match decision {
        PathDecision::CommitNow(d) => d,
        PathDecision::RunAccept(_) => panic!("the fast path must commit"),
    };
    assert_eq!(initial.ids, final_deps.ids);

    inst.final_deps = Some(final_deps);
    for (to, r) in [(1i64, &mut r1), (2, &mut r2), (3, &mut r3)] {
        let c = MakeRequest::commit(to, &inst);
        let reply = r.handle_commit(&c);
        assert_eq!(None, reply.err);
    }

    for r in [&mut r1, &mut r2, &mut r3] {
        let executed = r.execute().unwrap();
        assert_eq!(vec![iid], executed);
        let got = r.storage.get(DBColumnFamily::Data, &b"k1".to_vec());
        assert_eq!(Some(b"v1".to_vec()), got);
    }
}

/// Fast-path failure: one peer reports a larger dependency, so the
/// coordinator falls to the slow path and accepts the union.
#[test]
fn test_fast_path_failure_falls_to_slow_path() {
    let (mut r1, mut r2, mut r3) = three_replicas();
    let repl = Replication::new(1, &r1.group_replica_ids);

    // replica 2 already committed the concurrent write from replica 3
    let mut other = qpaxos::instance::Instance::of(
        &vec![Command::of(OpCode::Put, b"k", b"b")],
        BallotNum::new(0, 0, 3),
        &vec![],
    );
    other.instance_id = Some(InstanceId::new(3, 1));
    other.final_deps = Some(InstanceIdVec::new());
    let commit_other = MakeRequest::commit(2, &other);
    assert_eq!(None, r2.handle_commit(&commit_other).err);

    let cmds = vec![Command::of(OpCode::Put, b"k", b"a")];
    let mut inst = repl.start_instance(&mut r1, &cmds);
    let initial = inst.initial_deps.clone().unwrap();

    let dc = vec![false, false, false];
    let a2 = r2.handle_fast_accept(&MakeRequest::fast_accept(2, &inst, &dc));
    let a3 = r3.handle_fast_accept(&MakeRequest::fast_accept(3, &inst, &dc));

    // replica 2 raised the dependency on replica 3 to the committed write
    assert_eq!(
        vec![InstanceId::new(1, 0), InstanceId::new(2, 0), InstanceId::new(3, 1)],
        a2.deps.clone().unwrap().ids
    );
    assert_eq!(initial.ids, a3.deps.clone().unwrap().ids);

    let decision = repl.decide_fast_path(&vec![a2, a3], &initial).unwrap();
    let union = match decision {
        PathDecision::RunAccept(d) => d,
        PathDecision::CommitNow(_) => panic!("the fast path must fail"),
    };
    assert_eq!(
        vec![InstanceId::new(1, 0), InstanceId::new(2, 0), InstanceId::new(3, 1)],
        union.ids
    );

    inst.final_deps = Some(union);
    let b2 = r2.handle_accept(&MakeRequest::accept(2, &inst));
    let b3 = r3.handle_accept(&MakeRequest::accept(3, &inst));
    assert_eq!(None, b2.err);
    assert_eq!(None, b3.err);
    assert!(repl.decide_accept(&vec![b2, b3]).is_ok());
}

/// A commit for an instance never seen installs it whole; the last
/// ballot stays untouched.
#[test]
fn test_commit_before_fast_accept() {
    let mut r2 = new_foo_replica(2, &vec![]);
    let mut inst = qpaxos::instance::Instance::of(
        &vec![Command::of(OpCode::Put, b"x", b"1")],
        BallotNum::new(0, 0, 1),
        &vec![],
    );
    inst.instance_id = Some(InstanceId::new(1, 5));
    inst.final_deps = Some(InstanceIdVec::new());

    let reply = r2.handle_commit(&MakeRequest::commit(2, &inst));
    assert_eq!(None, reply.err);
    assert_eq!(None, reply.cmn.unwrap().last_ballot);

    let got = r2.storage.get_instance(InstanceId::new(1, 5)).unwrap();
    assert!(got.committed);
    assert_eq!(None, got.last_ballot);
    assert_eq!(inst.cmds, got.cmds);
    assert_eq!(inst.final_deps, got.final_deps);
}

/// A stale ballot on Accept mutates nothing and reports the strictly
/// larger ballot last seen.
#[test]
fn test_stale_ballot_on_accept() {
    let mut r2 = new_foo_replica(2, &vec![]);
    let mut inst = qpaxos::instance::Instance::of(
        &vec![Command::of(OpCode::Put, b"x", b"1")],
        BallotNum::new(0, 5, 1),
        &vec![],
    );
    inst.instance_id = Some(InstanceId::new(1, 3));
    inst.final_deps = Some(InstanceIdVec::new());

    // install the instance under ballot (0, 5, 1)
    assert_eq!(None, r2.handle_accept(&MakeRequest::accept(2, &inst)).err);
    let before = r2.storage.get_instance(InstanceId::new(1, 3)).unwrap();

    // a stale accept under ballot (0, 3, 1)
    inst.ballot = Some(BallotNum::new(0, 3, 1));
    let reply = r2.handle_accept(&MakeRequest::accept(2, &inst));
    assert_eq!(None, reply.err);
    let last = reply.cmn.unwrap().last_ballot.unwrap();
    assert_eq!(BallotNum::new(0, 5, 1), last);
    assert!(BallotNum::new(0, 3, 1) < last);

    // nothing moved
    let after = r2.storage.get_instance(InstanceId::new(1, 3)).unwrap();
    assert_eq!(before, after);

    // the coordinator classifies the reply as stale
    let verdict = check_reply_ballot(BallotNum::new(0, 3, 1), &Some(last));
    assert_eq!(
        Err(HandlerError::StaleBallot(BallotNum::new(0, 3, 1), BallotNum::new(0, 5, 1))),
        verdict
    );
}

/// Recovery by Prepare: the leader fails after the fast phase; a quorum
/// echoing the proposed dependencies lets the recovering replica commit
/// that value.
#[test]
fn test_recovery_via_prepare() {
    let (mut r1, mut r2, mut r3) = three_replicas();
    let repl1 = Replication::new(1, &r1.group_replica_ids);

    let cmds = vec![Command::of(OpCode::Put, b"k", b"v")];
    let mut inst = repl1.start_instance(&mut r1, &cmds);
    let initial = inst.initial_deps.clone().unwrap();

    // the fast phase reached both peers; the leader then fails
    let dc = vec![false, false, false];
    assert_eq!(None, r2.handle_fast_accept(&MakeRequest::fast_accept(2, &inst, &dc)).err);
    assert_eq!(None, r3.handle_fast_accept(&MakeRequest::fast_accept(3, &inst, &dc)).err);

    // replica 2 recovers with a higher ballot
    let repl2 = Replication::new(2, &r2.group_replica_ids);
    inst.ballot = Some(BallotNum::new(1, 7, 2));
    let p2 = r2.handle_prepare(&MakeRequest::prepare(2, &inst));
    let p3 = r3.handle_prepare(&MakeRequest::prepare(3, &inst));
    assert_eq!(None, p2.err);
    assert_eq!(None, p3.err);
    assert_eq!(Some(initial.clone()), p2.deps);
    assert_eq!(Some(initial.clone()), p3.deps);

    let decision = repl2.decide_prepare(&vec![p2, p3], &initial).unwrap();
    match decision {
        PathDecision::CommitNow(d) => assert_eq!(initial.ids, d.ids),
        PathDecision::RunAccept(_) => panic!("a quorum echoed the proposal"),
    }
}

/// Too few replies leave the coordinator with a quorum failure.
#[test]
fn test_not_enough_quorum() {
    let (mut r1, mut r2, _r3) = three_replicas();
    let repl = Replication::new(1, &r1.group_replica_ids);
    let cmds = vec![Command::of(OpCode::Put, b"k", b"v")];
    let inst = repl.start_instance(&mut r1, &cmds);
    let initial = inst.initial_deps.clone().unwrap();

    // one peer answers with an error: no quorum of two
    let mut a2 = r2.handle_fast_accept(&MakeRequest::fast_accept(2, &inst, &vec![false; 3]));
    a2.err = Some(qpaxos::errors::QError::of_storage());
    let decision = repl.decide_fast_path(&vec![a2], &initial);
    assert_eq!(
        Err(ReplicationError::NotEnoughQuorum { want: 2, got: 0 }),
        decision
    );
}

/// Two conflicting writes with mutual dependencies execute in the same
/// order on every replica; the later one wins everywhere.
#[test]
fn test_conflicting_writes_execute_deterministically() {
    let (mut r1, mut r2, _r3) = three_replicas();

    // (1,1) writes x=A and depends on (2,1); (2,1) writes x=B and
    // depends on (1,1): a two-cycle
    let mut ia = qpaxos::instance::Instance::of(
        &vec![Command::of(OpCode::Put, b"x", b"A")],
        BallotNum::new(0, 0, 1),
        &vec![],
    );
    ia.instance_id = Some(InstanceId::new(1, 1));
    ia.final_deps = Some(InstanceIdVec { ids: vec![InstanceId::new(2, 1)] });

    let mut ib = qpaxos::instance::Instance::of(
        &vec![Command::of(OpCode::Put, b"x", b"B")],
        BallotNum::new(0, 0, 2),
        &vec![],
    );
    ib.instance_id = Some(InstanceId::new(2, 1));
    ib.final_deps = Some(InstanceIdVec { ids: vec![InstanceId::new(1, 1)] });

    assert!(ia.conflict(&ib));

    for r in [&mut r1, &mut r2] {
        let to = r.replica_id;
        assert_eq!(None, r.handle_commit(&MakeRequest::commit(to, &ia)).err);
        assert_eq!(None, r.handle_commit(&MakeRequest::commit(to, &ib)).err);
    }

    let e1 = r1.execute().unwrap();
    let e2 = r2.execute().unwrap();
    assert_eq!(e1, e2);
    assert_eq!(vec![InstanceId::new(1, 1), InstanceId::new(2, 1)], e1);

    let v1 = r1.storage.get(DBColumnFamily::Data, &b"x".to_vec());
    let v2 = r2.storage.get(DBColumnFamily::Data, &b"x".to_vec());
    assert_eq!(v1, v2);
    assert_eq!(Some(b"B".to_vec()), v1);
}

/// An uncommitted dependency blocks execution until it commits.
#[test]
fn test_execution_blocks_on_uncommitted_dependency() {
    let mut r1 = new_foo_replica(1, &vec![]);

    // (2,1) is known but not committed; (1,1) depends on it
    let mut dep = qpaxos::instance::Instance::of(
        &vec![Command::of(OpCode::Put, b"y", b"d")],
        BallotNum::new(0, 0, 2),
        &vec![],
    );
    dep.instance_id = Some(InstanceId::new(2, 1));
    r1.storage.set_instance(&dep).unwrap();

    let mut inst = qpaxos::instance::Instance::of(
        &vec![Command::of(OpCode::Put, b"x", b"1")],
        BallotNum::new(0, 0, 1),
        &vec![],
    );
    inst.instance_id = Some(InstanceId::new(1, 1));
    inst.final_deps = Some(InstanceIdVec { ids: vec![InstanceId::new(2, 1)] });
    assert_eq!(None, r1.handle_commit(&MakeRequest::commit(1, &inst)).err);

    let executed = r1.execute().unwrap();
    assert!(executed.is_empty());

    // once the dependency commits, both run, dependency first
    dep.final_deps = Some(InstanceIdVec::new());
    assert_eq!(None, r1.handle_commit(&MakeRequest::commit(1, &dep)).err);
    let executed = r1.execute().unwrap();
    assert_eq!(vec![InstanceId::new(2, 1), InstanceId::new(1, 1)], executed);
}

/// Duplicate and delayed replies are classified for discarding.
#[test]
fn test_reply_classification() {
    assert_eq!(Ok(()), check_dup(&vec![1, 2], 3));
    assert_eq!(Err(HandlerError::Dup(2)), check_dup(&vec![1, 2], 2));
    assert_eq!(
        Err(HandlerError::DelayedReply(InstanceStatus::Accepted, InstanceStatus::PreAccepted)),
        check_reply_phase(InstanceStatus::Accepted, InstanceStatus::PreAccepted)
    );
    assert_eq!(Ok(()), check_reply_phase(InstanceStatus::Accepted, InstanceStatus::Committed));
    assert_eq!(Ok(()), check_reply_ballot(BallotNum::new(0, 5, 1), &Some(BallotNum::new(0, 5, 1))));
}

/// Serving the same fast-phase request twice under an equal ballot
/// leaves the stored instance as after the first time.
#[test]
fn test_fast_accept_twice_same_ballot() {
    let (mut r1, mut r2, _r3) = three_replicas();
    let repl = Replication::new(1, &r1.group_replica_ids);
    let cmds = vec![Command::of(OpCode::Put, b"k", b"v")];
    let inst = repl.start_instance(&mut r1, &cmds);
    let iid = inst.instance_id.unwrap();

    let req = MakeRequest::fast_accept(2, &inst, &vec![false, false, false]);
    let first_reply = r2.handle_fast_accept(&req);
    let first = r2.storage.get_instance(iid).unwrap();

    let second_reply = r2.handle_fast_accept(&req);
    let second = r2.storage.get_instance(iid).unwrap();

    assert_eq!(first, second);
    assert_eq!(first_reply.deps, second_reply.deps);
    assert_eq!(first_reply.deps_committed, second_reply.deps_committed);
}

/// A commit landing on an already committed instance, whatever its
/// ballot, is a no-op: the stored record is wholly unchanged.
#[test]
fn test_commit_on_committed_is_no_op() {
    let mut r2 = new_foo_replica(2, &vec![]);
    let mut inst = qpaxos::instance::Instance::of(
        &vec![Command::of(OpCode::Put, b"x", b"1")],
        BallotNum::new(0, 0, 1),
        &vec![],
    );
    inst.instance_id = Some(InstanceId::new(1, 2));
    inst.final_deps = Some(InstanceIdVec::new());
    assert_eq!(None, r2.handle_commit(&MakeRequest::commit(2, &inst)).err);
    let first = r2.storage.get_instance(InstanceId::new(1, 2)).unwrap();

    // a later commit under a higher ballot changes nothing
    inst.ballot = Some(BallotNum::new(3, 0, 1));
    let higher = r2.handle_commit(&MakeRequest::commit(2, &inst));
    assert_eq!(None, higher.err);
    assert_eq!(first.ballot, higher.cmn.unwrap().last_ballot);
    assert_eq!(Some(first.clone()), r2.storage.get_instance(InstanceId::new(1, 2)));

    // and a stale one neither
    inst.ballot = Some(BallotNum::new(0, 0, 0));
    assert_eq!(None, r2.handle_commit(&MakeRequest::commit(2, &inst)).err);
    assert_eq!(Some(first), r2.storage.get_instance(InstanceId::new(1, 2)));

    // executing twice runs nothing the second time
    let executed = r2.execute().unwrap();
    assert_eq!(vec![InstanceId::new(1, 2)], executed);
    assert_eq!(Vec::<InstanceId>::new(), r2.execute().unwrap());
}

/// A committed instance whose dependency vector covers instances this
/// replica has never received does not execute until they arrive and
/// commit.
#[test]
fn test_execution_blocks_on_absent_dependency() {
    let mut r1 = new_foo_replica(1, &vec![]);

    // (1,1) depends on everything of replica 2 up to index 2, but the
    // replica holds neither (2,1) nor (2,2)
    let mut inst = qpaxos::instance::Instance::of(
        &vec![Command::of(OpCode::Put, b"x", b"1")],
        BallotNum::new(0, 0, 1),
        &vec![],
    );
    inst.instance_id = Some(InstanceId::new(1, 1));
    inst.final_deps = Some(InstanceIdVec { ids: vec![InstanceId::new(2, 2)] });
    assert_eq!(None, r1.handle_commit(&MakeRequest::commit(1, &inst)).err);

    assert!(r1.execute().unwrap().is_empty());

    // (2,2) arrives and commits; it depends on nothing and runs, but
    // (1,1) stays blocked: (2,1) is still missing
    let mut d2 = qpaxos::instance::Instance::of(
        &vec![Command::of(OpCode::Put, b"y2", b"2")],
        BallotNum::new(0, 0, 2),
        &vec![],
    );
    d2.instance_id = Some(InstanceId::new(2, 2));
    d2.final_deps = Some(InstanceIdVec::new());
    assert_eq!(None, r1.handle_commit(&MakeRequest::commit(1, &d2)).err);

    assert_eq!(vec![InstanceId::new(2, 2)], r1.execute().unwrap());
    assert_eq!(None, r1.storage.get(DBColumnFamily::Data, &b"x".to_vec()));

    // once (2,1) is committed too, the rest runs, dependency first
    let mut d1 = qpaxos::instance::Instance::of(
        &vec![Command::of(OpCode::Put, b"y1", b"1")],
        BallotNum::new(0, 0, 2),
        &vec![],
    );
    d1.instance_id = Some(InstanceId::new(2, 1));
    d1.final_deps = Some(InstanceIdVec::new());
    assert_eq!(None, r1.handle_commit(&MakeRequest::commit(1, &d1)).err);

    let executed = r1.execute().unwrap();
    assert_eq!(vec![InstanceId::new(2, 1), InstanceId::new(1, 1)], executed);
    assert_eq!(
        Some(b"1".to_vec()),
        r1.storage.get(DBColumnFamily::Data, &b"x".to_vec())
    );
}

