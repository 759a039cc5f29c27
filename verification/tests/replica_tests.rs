//! The replica handlers, exercised request by request.

use qpaxos::command::Command;
use qpaxos::command::OpCode;
use qpaxos::deps::InstanceIdVec;
use qpaxos::errors::InvalidRequest;
use qpaxos::errors::QError;
use qpaxos::fixtures::_test_get_inst;
use qpaxos::fixtures::_test_repl_cmn_ok;
use qpaxos::fixtures::new_foo_inst;
use qpaxos::fixtures::new_foo_replica;
use qpaxos::ids::BallotNum;
use qpaxos::ids::InstanceId;
use qpaxos::instance::Instance;
use qpaxos::message::AcceptRequest;
use qpaxos::message::CommitRequest;
use qpaxos::message::MakeRequest;
use qpaxos::message::RequestCommon;

fn invalid_cases(replica_id: i64) -> Vec<(Option<RequestCommon>, (&'static str, &'static str, String))> {
    vec![
        (None, ("cmn", "LackOf", String::new())),
        (
            Some(RequestCommon { to_replica_id: 0, ballot: None, instance_id: None }),
            ("cmn.to_replica_id", "NotFound", format!("0; my replica_id: {}", replica_id)),
        ),
        (
            Some(RequestCommon { to_replica_id: replica_id, ballot: None, instance_id: None }),
            ("cmn.ballot", "LackOf", String::new()),
        ),
        (
            Some(RequestCommon {
                to_replica_id: replica_id,
                ballot: Some(BallotNum::new(0, 0, 1)),
                instance_id: None,
            }),
            ("cmn.instance_id", "LackOf", String::new()),
        ),
    ]
}

#[test]
fn test_handle_xxx_request_invalid() {
    let replica_id = 2;
    let mut replica = new_foo_replica(replica_id, &vec![]);

    for (cmn, etuple) in invalid_cases(replica_id).into_iter() {
        let req = AcceptRequest { cmn, ..Default::default() };
        let repl = replica.handle_accept(&req);
        let err = repl.err.unwrap();
        let expected = QError {
            req: Some(InvalidRequest::of(etuple.0, etuple.1, etuple.2.as_str())),
            sto: None,
        };
        assert_eq!(expected, err);
    }

    for (cmn, etuple) in invalid_cases(replica_id).into_iter() {
        let req = CommitRequest { cmn, ..Default::default() };
        let repl = replica.handle_commit(&req);
        let err = repl.err.unwrap();
        let expected = QError {
            req: Some(InvalidRequest::of(etuple.0, etuple.1, etuple.2.as_str())),
            sto: None,
        };
        assert_eq!(expected, err);
    }
}

#[test]
fn test_handle_fast_accept_request() {
    let replica_id = 1;
    let mut replica = new_foo_replica(replica_id, &vec![]);

    {
        let mut inst = new_foo_inst(replica_id);
        let iid = inst.instance_id.unwrap();
        let blt = inst.ballot;

        let none = replica.storage.get_instance(iid);
        assert!(none.is_none());

        let deps_committed = vec![false, false, false];
        let req = MakeRequest::fast_accept(replica_id, &inst, &deps_committed);
        let repl = replica.handle_fast_accept(&req);

        inst.deps = inst.initial_deps.clone();

        assert_eq!(None, repl.err);
        assert_eq!(deps_committed, repl.deps_committed);
        assert_eq!(inst.deps, repl.deps);

        assert!(_test_repl_cmn_ok(&repl.cmn.unwrap(), iid, blt));

        // the written instance
        assert!(_test_get_inst(&replica, iid, blt, blt, &inst.cmds, &None));
    }

    {
        // instance space layout, then a is replicated to R1
        //               .c
        //             /  |
        // d          d   |
        // |          |\ /
        // a          a-b            c
        // x y z      x y z      x y z
        // -----      -----      -----
        // R0         R1         R2

        // instx
        let x_iid = InstanceId::new(0, 0);
        let cmds = vec![Command::of(OpCode::Put, b"key_x", b"val_x")];
        let ballot = BallotNum::new(0, 0, 0);
        let initial_deps: Vec<InstanceId> = vec![];

        let mut instx = Instance::of(&cmds[..], ballot, &initial_deps[..]);
        instx.deps = Some(InstanceIdVec::from_pairs(&vec![(0, 0), (0, 0), (0, 0)]));
        instx.instance_id = Some(x_iid);
        replica.storage.set_instance(&instx).unwrap();

        // insty
        let y_iid = InstanceId::new(1, 0);
        let cmds = vec![Command::of(OpCode::Get, b"key_y", b"val_y")];
        let ballot = BallotNum::new(0, 0, 1);

        let mut insty = Instance::of(&cmds[..], ballot, &initial_deps[..]);
        insty.deps = Some(InstanceIdVec::from_pairs(&vec![(0, 0), (0, 0), (0, 0)]));
        insty.instance_id = Some(y_iid);
        replica.storage.set_instance(&insty).unwrap();

        // instz
        let z_iid = InstanceId::new(2, 0);
        let cmds = vec![Command::of(OpCode::Get, b"key_z", b"val_z")];
        let ballot = BallotNum::new(0, 0, 2);

        let mut instz = Instance::of(&cmds[..], ballot, &initial_deps[..]);
        instz.deps = Some(InstanceIdVec::from_pairs(&vec![(0, 0), (0, 0), (0, 0)]));
        instz.instance_id = Some(z_iid);
        replica.storage.set_instance(&instz).unwrap();

        // instb
        let b_iid = InstanceId::new(1, 1);
        let cmds = vec![Command::of(OpCode::Get, b"key_b", b"val_b")];
        let ballot = BallotNum::new(0, 0, 1);

        let mut instb = Instance::of(&cmds[..], ballot, &initial_deps[..]);
        instb.deps = Some(InstanceIdVec { ids: vec![x_iid, y_iid, z_iid] });
        instb.instance_id = Some(b_iid);
        instb.committed = true;
        replica.storage.set_instance(&instb).unwrap();

        // insta
        let a_iid = InstanceId::new(0, 1);
        let cmds = vec![Command::of(OpCode::Get, b"key_a", b"val_a")];
        let ballot = BallotNum::new(0, 0, 0);
        let a_initial_deps = vec![x_iid, y_iid, z_iid];

        let mut insta = Instance::of(&cmds[..], ballot, &a_initial_deps[..]);
        insta.deps = Some(InstanceIdVec { ids: vec![x_iid, y_iid, z_iid] });
        insta.instance_id = Some(a_iid);

        // instd
        let d_iid = InstanceId::new(0, 2);
        let cmds = vec![Command::of(OpCode::Get, b"key_d", b"val_d")];
        let ballot = BallotNum::new(0, 0, 0);

        let mut instd = Instance::of(&cmds[..], ballot, &initial_deps[..]);
        instd.deps = Some(InstanceIdVec { ids: vec![a_iid, b_iid, z_iid] });
        instd.instance_id = Some(d_iid);
        replica.storage.set_instance(&instd).unwrap();

        // instc
        let c_iid = InstanceId::new(2, 3);
        let cmds = vec![Command::of(OpCode::Get, b"key_z", b"val_z")];
        let ballot = BallotNum::new(0, 0, 2);

        let mut instc = Instance::of(&cmds[..], ballot, &initial_deps[..]);
        instc.deps = Some(InstanceIdVec { ids: vec![d_iid, b_iid, z_iid] });
        instc.instance_id = Some(c_iid);
        replica.storage.set_instance(&instc).unwrap();

        let deps_committed = vec![false, true, false];
        let req = MakeRequest::fast_accept(replica_id, &insta, &deps_committed);
        let repl = replica.handle_fast_accept(&req);

        insta.deps = Some(InstanceIdVec { ids: vec![x_iid, b_iid, z_iid] });

        assert_eq!(None, repl.err);
        assert_eq!(deps_committed, repl.deps_committed);
        assert_eq!(insta.deps, repl.deps);

        assert!(_test_repl_cmn_ok(
            &repl.cmn.unwrap(),
            insta.instance_id.unwrap(),
            insta.ballot
        ));

        // the written instance
        assert!(_test_get_inst(
            &replica,
            insta.instance_id.unwrap(),
            insta.ballot,
            insta.ballot,
            &insta.cmds,
            &None,
        ));
    }
}

#[test]
fn test_handle_accept_request() {
    let replica_id = 2;
    let inst = new_foo_inst(replica_id);
    let iid = inst.instance_id.unwrap();
    let blt = inst.ballot;
    let fdeps = inst.final_deps.clone();

    let mut replica = new_foo_replica(replica_id, &vec![]);
    let none = replica.storage.get_instance(iid);
    assert!(none.is_none());

    {
        // ok reply with none instance.
        let req = MakeRequest::accept(replica_id, &inst);
        let repl = replica.handle_accept(&req);
        assert_eq!(None, repl.err);
        assert!(_test_repl_cmn_ok(&repl.cmn.unwrap(), iid, None));

        // the written instance.
        assert!(_test_get_inst(&replica, iid, blt, None, &vec![], &fdeps));
    }

    {
        // ok reply when replacing instance. same ballot.
        let req = MakeRequest::accept(replica_id, &inst);
        assert_eq!(
            req.cmn.unwrap().ballot,
            replica.storage.get_instance(iid).unwrap().ballot
        );

        let repl = replica.handle_accept(&req);
        assert_eq!(None, repl.err);
        assert!(_test_repl_cmn_ok(&repl.cmn.unwrap(), iid, blt));

        // the accepted instance.
        assert!(_test_get_inst(&replica, iid, blt, blt, &vec![], &fdeps));
    }

    {
        // ok reply but not written because of a higher ballot.
        let req = MakeRequest::accept(replica_id, &inst);

        // an instance with bigger ballot.
        let mut curr = replica.storage.get_instance(iid).unwrap();
        let mut bigger = blt.unwrap();
        bigger.num += 1;
        let bigger = Some(bigger);

        curr.ballot = bigger;
        curr.final_deps = Some(InstanceIdVec::new());
        replica.storage.set_instance(&curr).unwrap();

        let curr = replica.storage.get_instance(iid).unwrap();
        assert!(curr.ballot > blt);

        // accept wont update this instance.
        let repl = replica.handle_accept(&req);
        assert_eq!(None, repl.err);
        assert!(_test_repl_cmn_ok(&repl.cmn.unwrap(), iid, bigger));

        // the intact instance.
        assert!(_test_get_inst(
            &replica,
            iid,
            bigger,
            blt,
            &vec![],
            &Some(InstanceIdVec::new())
        ));
    }
}

#[test]
fn test_handle_commit_request() {
    let replica_id = 2;
    let inst = new_foo_inst(replica_id);
    let iid = inst.instance_id.unwrap();
    let blt = inst.ballot;
    let cmds = inst.cmds.clone();
    let fdeps = inst.final_deps.clone();

    let mut replica = new_foo_replica(replica_id, &vec![]);
    let none = replica.storage.get_instance(iid);
    assert!(none.is_none());

    let req = MakeRequest::commit(replica_id, &inst);

    {
        // ok reply with none instance.
        let repl = replica.handle_commit(&req);
        assert_eq!(None, repl.err);
        assert!(_test_repl_cmn_ok(&repl.cmn.unwrap(), iid, None));

        // the committed instance.
        assert!(_test_get_inst(&replica, iid, blt, None, &cmds, &fdeps));
    }

    {
        // a repeated commit: the reply reports the stored ballot and the
        // committed record stays wholly unchanged
        let repl = replica.handle_commit(&req);
        assert_eq!(None, repl.err);
        assert!(_test_repl_cmn_ok(&repl.cmn.unwrap(), iid, blt));

        // the committed instance, untouched.
        assert!(_test_get_inst(&replica, iid, blt, None, &cmds, &fdeps));
    }
}

#[test]
fn test_fast_accept_with_malformed_local_instance() {
    // a stored record without a dependency vector cannot serve the fast
    // phase: the reply carries a storage error and nothing moves
    let iid = InstanceId::new(1, 0);
    let mut local = Instance::of(
        &vec![Command::of(OpCode::Put, b"x", b"y")],
        BallotNum::new(0, 0, 1),
        &vec![],
    );
    local.instance_id = Some(iid);
    local.deps = None;

    let mut req_inst = Instance::of(
        &vec![Command::of(OpCode::Put, b"x", b"y")],
        BallotNum::new(0, 0, 1),
        &vec![InstanceId::new(0, 0)],
    );
    req_inst.instance_id = Some(iid);
    req_inst.deps = req_inst.initial_deps.clone();

    let repl = qpaxos::fixtures::_handle_fast_accept_request(iid, local, req_inst);
    assert!(repl.err.is_some());
    assert!(repl.deps.is_none());
}
