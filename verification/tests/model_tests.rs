//! The data model: the key codec, quorum sizes, dependency-vector union,
//! the conflict relation, the ordered store, and error conversions.

use qpaxos::command::Command;
use qpaxos::command::OpCode;
use qpaxos::conf::ClusterInfo;
use qpaxos::conf::GroupMember;
use qpaxos::conf::Node;
use qpaxos::deps::InstanceIdVec;
use qpaxos::engine::DBColumnFamily;
use qpaxos::engine::MemEngine;
use qpaxos::engine::WriteEntry;
use qpaxos::errors::ConfError;
use qpaxos::errors::ProtocolError;
use qpaxos::errors::InvalidRequest;
use qpaxos::errors::QError;
use qpaxos::errors::ReplicaError;
use qpaxos::errors::StorageFailure;
use qpaxos::fmt::dec_i64;
use qpaxos::ids::InstanceId;
use qpaxos::quorums::fast_quorum;
use qpaxos::quorums::quorum;
use qpaxos::storage::OrderedKv;

#[test]
fn test_instance_id_key_round_trip() {
    for (rid, idx) in [(0i64, 0i64), (1, 10), (7, 0x1234_5678_9abc), (i64::MAX, i64::MAX), (-3, 5)] {
        let iid = InstanceId::new(rid, idx);
        let key = iid.to_key();
        let s = std::str::from_utf8(&key).unwrap().to_string();
        assert_eq!(Some(iid), InstanceId::from_key(&s));
    }
    let iid = InstanceId::new(1, 10);
    assert_eq!(
        "/instance/0000000000000001/000000000000000a".as_bytes().to_vec(),
        iid.to_key()
    );
}

#[test]
fn test_instance_id_key_rejects() {
    // a negative index cannot be encoded
    assert_eq!(None, InstanceId::new(1, -1).checked_to_key());
    assert!(InstanceId::new(1, 0).checked_to_key().is_some());

    // only the canonical layout decodes
    assert_eq!(None, InstanceId::from_key(""));
    assert_eq!(None, InstanceId::from_key("/instance/xyz/0"));
    assert_eq!(None, InstanceId::from_key("/instance/0000000000000001"));
    assert_eq!(
        None,
        InstanceId::from_key("/record/0000000000000001/000000000000000a")
    );
    assert_eq!(
        Some(InstanceId::new(1, 10)),
        InstanceId::from_key("/instance/0000000000000001/000000000000000a")
    );
}

#[test]
fn test_quorums() {
    assert_eq!(2, quorum(3));
    assert_eq!(2, fast_quorum(3));
    assert_eq!(3, quorum(5));
    assert_eq!(3, fast_quorum(5));
    assert_eq!(1, quorum(1));
    assert_eq!(1, fast_quorum(1));
    assert_eq!(3, quorum(4));
    assert_eq!(3, fast_quorum(4));
}

fn deps(pairs: &[(i64, i64)]) -> InstanceIdVec {
    InstanceIdVec::from_pairs(&pairs.to_vec())
}

#[test]
fn test_dep_union_laws_on_values() {
    let a = deps(&[(1, 3), (2, 1)]);
    let b = deps(&[(2, 5), (3, 2)]);
    let c = deps(&[(1, 1), (3, 9)]);

    // idempotent
    assert_eq!(a.ids, a.union(&a).ids);

    // commutative, read as maps: same replicas, same indexes
    let ab = a.union(&b);
    let ba = b.union(&a);
    for rid in 1..4 {
        assert_eq!(ab.get(rid), ba.get(rid));
    }
    assert_eq!(
        vec![InstanceId::new(1, 3), InstanceId::new(2, 5), InstanceId::new(3, 2)],
        ab.ids
    );

    // associative
    let abc1 = a.union(&b).union(&c);
    let abc2 = a.union(&b.union(&c));
    for rid in 1..4 {
        assert_eq!(abc1.get(rid), abc2.get(rid));
    }
    assert_eq!(Some(InstanceId::new(3, 9)), abc1.get(3));
}

#[test]
fn test_dep_vec_get_set_index() {
    let mut v = deps(&[(1, 3), (2, 1)]);
    assert_eq!(Some(InstanceId::new(1, 3)), v.get(1));
    assert_eq!(None, v.get(9));
    assert_eq!(2, v.len());

    // overwrite
    let (at, replaced) = v.set(InstanceId::new(2, 7));
    assert_eq!(1, at);
    assert_eq!(Some(InstanceId::new(2, 1)), replaced);

    // append
    let (at, replaced) = v.set(InstanceId::new(5, 5));
    assert_eq!(2, at);
    assert_eq!(None, replaced);
    assert_eq!(InstanceId::new(5, 5), v.index_of(5));
}

#[test]
fn test_command_conflict() {
    let set_a = Command::of(OpCode::Put, b"a", b"1");
    let set_a2 = Command::of(OpCode::Put, b"a", b"2");
    let set_b = Command::of(OpCode::Put, b"b", b"1");
    let get_a = Command::of(OpCode::Get, b"a", b"");
    let get_a2 = Command::of(OpCode::Get, b"a", b"");
    let noop = Command::of(OpCode::NoOp, b"a", b"");

    // two writes to one key conflict; a write and a read to one key conflict
    assert!(set_a.conflict(&set_a2));
    assert!(set_a.conflict(&get_a));
    assert!(get_a.conflict(&set_a));
    // different keys do not
    assert!(!set_a.conflict(&set_b));
    // two reads do not
    assert!(!get_a.conflict(&get_a2));
    // a no-op never conflicts
    assert!(!noop.conflict(&set_a));
    assert!(!set_a.conflict(&noop));
}

#[test]
fn test_ordered_kv_adjacency() {
    let mut kv = OrderedKv::new();
    kv.set(&b"b".to_vec(), &b"2".to_vec());
    kv.set(&b"d".to_vec(), &b"4".to_vec());
    kv.set(&b"a".to_vec(), &b"1".to_vec());

    assert_eq!(Some(b"2".to_vec()), kv.get(&b"b".to_vec()));
    assert_eq!(None, kv.get(&b"c".to_vec()));

    // the nearest key at or after
    assert_eq!(Some((b"b".to_vec(), b"2".to_vec())), kv.next(&b"b".to_vec(), true));
    assert_eq!(Some((b"d".to_vec(), b"4".to_vec())), kv.next(&b"b".to_vec(), false));
    assert_eq!(Some((b"d".to_vec(), b"4".to_vec())), kv.next(&b"c".to_vec(), true));
    assert_eq!(None, kv.next(&b"d".to_vec(), false));

    // the nearest key at or before
    assert_eq!(Some((b"b".to_vec(), b"2".to_vec())), kv.prev(&b"b".to_vec(), true));
    assert_eq!(Some((b"a".to_vec(), b"1".to_vec())), kv.prev(&b"b".to_vec(), false));
    assert_eq!(None, kv.prev(&b"a".to_vec(), false));

    // overwrite and delete
    kv.set(&b"b".to_vec(), &b"9".to_vec());
    assert_eq!(Some(b"9".to_vec()), kv.get(&b"b".to_vec()));
    kv.delete(&b"b".to_vec());
    assert_eq!(None, kv.get(&b"b".to_vec()));
    assert_eq!(Some((b"d".to_vec(), b"4".to_vec())), kv.next(&b"b".to_vec(), true));
}

#[test]
fn test_engine_write_batch() {
    let mut eng = MemEngine::new();
    let batch = vec![
        WriteEntry::Put(DBColumnFamily::Data, b"x".to_vec(), b"1".to_vec()),
        WriteEntry::Put(DBColumnFamily::Status, b"cp".to_vec(), b"7".to_vec()),
        WriteEntry::Nil,
        WriteEntry::Put(DBColumnFamily::Data, b"x".to_vec(), b"2".to_vec()),
        WriteEntry::Delete(DBColumnFamily::Status, b"cp".to_vec()),
    ];
    eng.write_batch(&batch);
    // later entries win: the batch applies in order
    assert_eq!(Some(b"2".to_vec()), eng.get(DBColumnFamily::Data, &b"x".to_vec()));
    assert_eq!(None, eng.get(DBColumnFamily::Status, &b"cp".to_vec()));
    assert_eq!(None, eng.get(DBColumnFamily::Instance, &b"x".to_vec()));
}

#[test]
fn test_replica_error_to_qerror() {
    let q = ReplicaError::Existed.to_qerror();
    assert_eq!(QError { req: None, sto: Some(StorageFailure {}) }, q);

    let inv = InvalidRequest::of("cmn", "LackOf", "");
    let q = ReplicaError::Protocol(ProtocolError::Invalid(inv)).to_qerror();
    assert_eq!(
        QError { req: Some(InvalidRequest::of("cmn", "LackOf", "")), sto: None },
        q
    );
}

#[test]
fn test_dec_i64() {
    assert_eq!("0", dec_i64(0).as_str());
    assert_eq!("42", dec_i64(42).as_str());
    assert_eq!("-7", dec_i64(-7).as_str());
    assert_eq!("9223372036854775807", dec_i64(i64::MAX).as_str());
    assert_eq!("-9223372036854775808", dec_i64(i64::MIN).as_str());
}

fn node(id: &str) -> Node {
    Node {
        node_id: id.to_string(),
        api_addr: format!("{}:6379", id),
        api_uaddr: None,
        replication: id.to_string(),
    }
}

#[test]
fn test_cluster_populate_and_check() {
    let mut cluster = ClusterInfo {
        nodes: vec![node("127.0.0.1:6666"), node("127.0.0.1:6667")],
        groups: vec![
            vec![
                GroupMember { replica_id: 1, node_id: "127.0.0.1:6666".to_string() },
                GroupMember { replica_id: 2, node_id: "127.0.0.1:6667".to_string() },
            ],
            vec![GroupMember { replica_id: 3, node_id: "127.0.0.1:6666".to_string() }],
        ],
        replicas: vec![],
    };
    assert!(cluster.populate_replicas().is_ok());
    assert_eq!(3, cluster.replicas.len());
    let info = cluster.get_replica(1).unwrap();
    assert_eq!(vec![1, 2], info.group);
    assert_eq!("127.0.0.1:6666", info.node_id.as_str());
    let n = cluster.get_replica_node(2).unwrap();
    assert_eq!("127.0.0.1:6667", n.node_id.as_str());
    assert!(cluster.get_replica(9).is_none());
    assert!(cluster.check_replicas().is_ok());

    // a replica id in two groups is refused
    let mut dup = ClusterInfo {
        nodes: vec![node("127.0.0.1:6666")],
        groups: vec![
            vec![GroupMember { replica_id: 1, node_id: "127.0.0.1:6666".to_string() }],
            vec![GroupMember { replica_id: 1, node_id: "127.0.0.1:6666".to_string() }],
        ],
        replicas: vec![],
    };
    assert_eq!(Err(ConfError::DupReplica(1)), dup.populate_replicas());

    // a replica on an unknown node is refused
    let mut orphan = ClusterInfo {
        nodes: vec![node("127.0.0.1:6666")],
        groups: vec![vec![GroupMember { replica_id: 1, node_id: "10.0.0.9:1".to_string() }]],
        replicas: vec![],
    };
    assert!(orphan.populate_replicas().is_ok());
    assert_eq!(
        Err(ConfError::OrphanReplica(1, "10.0.0.9:1".to_string())),
        orphan.check_replicas()
    );
}

#[test]
fn test_norm_node() {
    let mut n = Node {
        node_id: String::new(),
        api_addr: "127.0.0.1:6379".to_string(),
        api_uaddr: None,
        replication: String::new(),
    };
    ClusterInfo::norm_node("127.0.0.1:6666", &mut n);
    assert_eq!("127.0.0.1:6666", n.node_id.as_str());
    assert_eq!("127.0.0.1:6666", n.replication.as_str());
    assert_eq!("127.0.0.1:6379", n.api_addr.as_str());
}

#[test]
fn test_instance_after() {
    let mut a = qpaxos::instance::Instance::default();
    let mut b = qpaxos::instance::Instance::default();

    // no final dependencies: neither is after the other
    assert!(!a.after(&b));
    assert!(!b.after(&a));

    a.final_deps = Some(deps(&[(1, 3), (2, 4)]));
    b.final_deps = Some(deps(&[(1, 2), (2, 4)]));
    assert!(a.after(&b));
    assert!(!b.after(&a));

    // equal vectors: neither is strictly after
    b.final_deps = Some(deps(&[(1, 3), (2, 4)]));
    assert!(!a.after(&b));
    assert!(!b.after(&a));
}
