//! Cluster configuration: nodes, replication groups, and the derived
//! replica map.
//!
//! A node is a service address; a group assigns about three replicas to
//! nodes. Loading fills each node's id from its key, derives the replica
//! map, and fails on a replica id used twice (`DupReplica`) or a replica
//! placed on an unknown node (`OrphanReplica`). Reading the file and
//! parsing addresses sit outside the library; the library receives the
//! parsed nodes and groups as plain values.

use vstd::prelude::*;

use crate::errors::ConfError;
use crate::ids::ReplicaId;

verus! {

/// The global identity of a service node.
pub type NodeId = String;

/// A cluster node: its id, its client-facing address and its replication
/// address, kept as strings.
#[derive(Debug, PartialEq, Eq)]
pub struct Node {
    pub node_id: NodeId,
    pub api_addr: String,
    pub api_uaddr: Option<String>,
    pub replication: String,
}

/// One member of a replication group: a replica placed on a node.
#[derive(Debug, PartialEq, Eq)]
pub struct GroupMember {
    pub replica_id: ReplicaId,
    pub node_id: NodeId,
}

/// Where one replica lives: its group's members and its node.
#[derive(Debug, PartialEq, Eq)]
pub struct ReplicaInfo {
    pub group: Vec<ReplicaId>,
    pub node_id: NodeId,
}

/// The mathematical value of a replica's placement.
pub struct ReplicaInfoView {
    pub group: Seq<ReplicaId>,
    pub node_id: Seq<char>,
}

impl View for ReplicaInfo {
    type V = ReplicaInfoView;

    open spec fn view(&self) -> ReplicaInfoView {
        ReplicaInfoView { group: self.group@, node_id: self.node_id@ }
    }
}

/// One entry of the derived replica map.
#[derive(Debug, PartialEq, Eq)]
pub struct ReplicaEntry {
    pub replica_id: ReplicaId,
    pub info: ReplicaInfo,
}

/// The cluster: its nodes, its replication groups, and the replica map
/// derived from them.
#[derive(Debug, PartialEq, Eq)]
pub struct ClusterInfo {
    pub nodes: Vec<Node>,
    pub groups: Vec<Vec<GroupMember>>,
    pub replicas: Vec<ReplicaEntry>,
}

/// The replica ids of a group, in order.
pub open spec fn group_rids(g: Seq<GroupMember>) -> Seq<ReplicaId> {
    g.map_values(|m: GroupMember| m.replica_id)
}

/// Whether every replica id occurs only once over all the groups.
pub open spec fn rids_unique(gs: Seq<Seq<GroupMember>>) -> bool {
    forall|a: int, k: int, b: int, l: int|
        0 <= a < gs.len() && 0 <= k < gs[a].len() && 0 <= b < gs.len() && 0 <= l < gs[b].len() && (a
            != b || k != l) ==> (#[trigger] gs[a][k]).replica_id != (#[trigger] gs[b][l]).replica_id
}

/// The replica entries one group contributes.
pub open spec fn infos_of_group(g: Seq<GroupMember>) -> Seq<(ReplicaId, ReplicaInfoView)> {
    g.map_values(
        |m: GroupMember| (m.replica_id, ReplicaInfoView { group: group_rids(g), node_id: m.node_id@ }),
    )
}

/// The replica entries all the groups contribute, in order.
pub open spec fn infos_of(gs: Seq<Seq<GroupMember>>) -> Seq<(ReplicaId, ReplicaInfoView)>
    decreases gs.len(),
{
    if gs.len() == 0 {
        Seq::<(ReplicaId, ReplicaInfoView)>::empty()
    } else {
        infos_of(gs.drop_last()) + infos_of_group(gs.last())
    }
}

/// The value of the derived replica map.
pub open spec fn replicas_view(rs: Seq<ReplicaEntry>) -> Seq<(ReplicaId, ReplicaInfoView)> {
    rs.map_values(|e: ReplicaEntry| (e.replica_id, e.info@))
}

impl ClusterInfo {
    /// Fills a node's identity from its key: the key is the node id and
    /// doubles as the replication address. Validating the address as a
    /// socket address is the caller's concern.
    pub fn norm_node(nid: &str, node: &mut Node)
        ensures
            final(node).node_id@ == nid@,
            final(node).replication@ == nid@,
            final(node).api_addr == old(node).api_addr,
            final(node).api_uaddr == old(node).api_uaddr,
    {
        node.node_id = nid.to_owned();
        node.replication = nid.to_owned();
    }

    /// The placement of a replica: the first entry of the replica map
    /// carrying the id.
    pub fn get_replica(&self, rid: ReplicaId) -> (r: Option<&ReplicaInfo>)
        ensures
            r.is_some() == exists|i: int|
                0 <= i < self.replicas@.len() && (#[trigger] self.replicas@[i]).replica_id == rid,
            match r {
                Some(info) => exists|i: int|
                    {
                        &&& 0 <= i < self.replicas@.len()
                        &&& (#[trigger] self.replicas@[i]).replica_id == rid
                        &&& self.replicas@[i].info == *info
                        &&& forall|j: int|
                            0 <= j < i ==> (#[trigger] self.replicas@[j]).replica_id != rid
                    },
                None => true,
            },
    {
        let n = self.replicas.len();
        let mut k: usize = 0;
        while k < n
            invariant
                n == self.replicas@.len(),
                0 <= k <= n,
                forall|j: int| 0 <= j < k ==> (#[trigger] self.replicas@[j]).replica_id != rid,
            decreases n - k,
        {
            if self.replicas[k].replica_id == rid {
                return Some(&self.replicas[k].info);
            }
            k += 1;
        }
        None
    }

    /// The node hosting a replica: for the first replica-map entry
    /// carrying the id, the first node whose id is that entry's node id.
    /// `None` exactly when the replica is unmapped or its node is
    /// unknown.
    pub fn get_replica_node(&self, rid: ReplicaId) -> (r: Option<&Node>)
        ensures
            match r {
                Some(node) => exists|i: int|
                    {
                        &&& 0 <= i < self.replicas@.len()
                        &&& (#[trigger] self.replicas@[i]).replica_id == rid
                        &&& forall|x: int|
                            0 <= x < i ==> (#[trigger] self.replicas@[x]).replica_id != rid
                        &&& exists|j: int|
                            {
                                &&& 0 <= j < self.nodes@.len()
                                &&& (#[trigger] self.nodes@[j]).node_id@
                                    == self.replicas@[i].info.node_id@
                                &&& *node == self.nodes@[j]
                                &&& forall|x: int|
                                    0 <= x < j ==> (#[trigger] self.nodes@[x]).node_id@
                                        != self.replicas@[i].info.node_id@
                            }
                    },
                None => (forall|i: int|
                    0 <= i < self.replicas@.len() ==> (#[trigger] self.replicas@[i]).replica_id
                        != rid) || exists|i: int|
                    {
                        &&& 0 <= i < self.replicas@.len()
                        &&& (#[trigger] self.replicas@[i]).replica_id == rid
                        &&& forall|x: int|
                            0 <= x < i ==> (#[trigger] self.replicas@[x]).replica_id != rid
                        &&& !has_node(self, self.replicas@[i].info.node_id@)
                    },
            },
    {
        let info = match self.get_replica(rid) {
            Some(info) => info,
            None => {
                return None;
            },
        };
        let ghost i = choose|i: int|
            {
                &&& 0 <= i < self.replicas@.len()
                &&& (#[trigger] self.replicas@[i]).replica_id == rid
                &&& self.replicas@[i].info == *info
                &&& forall|j: int| 0 <= j < i ==> (#[trigger] self.replicas@[j]).replica_id != rid
            };
        let n = self.nodes.len();
        let mut k: usize = 0;
        while k < n
            invariant
                n == self.nodes@.len(),
                0 <= k <= n,
                0 <= i < self.replicas@.len(),
                self.replicas@[i as int].replica_id == rid,
                self.replicas@[i as int].info == *info,
                forall|j: int| 0 <= j < i ==> (#[trigger] self.replicas@[j]).replica_id != rid,
                forall|x: int|
                    0 <= x < k ==> (#[trigger] self.nodes@[x]).node_id@ != info.node_id@,
            decreases n - k,
        {
            if string_eq(&self.nodes[k].node_id, &info.node_id) {
                proof {
                    assert(self.nodes@[k as int].node_id@ == self.replicas@[i].info.node_id@);
                }
                return Some(&self.nodes[k]);
            }
            k += 1;
        }
        proof {
            assert(!has_node(self, self.replicas@[i].info.node_id@)) by {
                if has_node(self, self.replicas@[i].info.node_id@) {
                    let j = choose|j: int|
                        0 <= j < self.nodes@.len() && (#[trigger] self.nodes@[j]).node_id@
                            == self.replicas@[i].info.node_id@;
                    assert(self.nodes@[j].node_id@ != info.node_id@);
                }
            }
        }
        None
    }

    /// Derives the replica map from the groups: every group member gets
    /// an entry naming its group and its node. Fails with `DupReplica` on
    /// the first replica id that is already mapped.
    pub fn populate_replicas(&mut self) -> (r: Result<(), ConfError>)
        ensures
            final(self).nodes == old(self).nodes,
            final(self).groups == old(self).groups,
            match r {
                Ok(()) => replicas_view(final(self).replicas@) == infos_of(
                    deep_groups(final(self).groups@),
                ) && rids_unique(deep_groups(final(self).groups@)),
                Err(e) => e matches ConfError::DupReplica(rid) && !rids_unique(
                    deep_groups(old(self).groups@),
                ),
            },
    {
        let mut replicas: Vec<ReplicaEntry> = Vec::new();
        let ghost gs = deep_groups(self.groups@);
        let gn = self.groups.len();
        let mut a: usize = 0;
        proof {
            assert(gs.take(0) =~= Seq::<Seq<GroupMember>>::empty());
            assert(replicas_view(replicas@) =~= infos_of(gs.take(0)));
        }
        while a < gn
            invariant
                gs == deep_groups(self.groups@),
                gn == gs.len(),
                self == old(self),
                0 <= a <= gn,
                replicas_view(replicas@) == infos_of(gs.take(a as int)),
                rids_unique(gs.take(a as int)),
            decreases gn - a,
        {
            let ghost g = gs[a as int];
            proof {
                assert(gs.take(a as int + 1).drop_last() =~= gs.take(a as int));
                assert(gs.take(a as int + 1).last() == g);
            }
            // the group's replica ids, with a duplication check against
            // what is mapped so far
            let gsize = self.groups[a].len();
            let mut gvec: Vec<ReplicaId> = Vec::new();
            let mut k: usize = 0;
            while k < gsize
                invariant
                    gs == deep_groups(self.groups@),
                    self == old(self),
                    0 <= a < gn,
                    gn == gs.len(),
                    g == gs[a as int],
                    gsize == g.len(),
                    0 <= k <= gsize,
                    gvec@ =~= group_rids(g).take(k as int),
                    replicas_view(replicas@) == infos_of(gs.take(a as int)),
                    rids_unique(gs.take(a as int)),
                    forall|k1: int, k2: int|
                        0 <= k1 < k2 < k ==> #[trigger] g[k1].replica_id != #[trigger] g[k2].replica_id,
                    forall|b: int, l: int, k1: int|
                        0 <= b < a && 0 <= l < gs[b].len() && 0 <= k1 < k ==> (
                        #[trigger] gs[b][l]).replica_id != (#[trigger] g[k1]).replica_id,
                decreases gsize - k,
            {
                let rid = self.groups[a][k].replica_id;
                let mut seen = false;
                let rn = replicas.len();
                let mut t: usize = 0;
                while t < rn && !seen
                    invariant
                        rn == replicas@.len(),
                        0 <= t <= rn,
                        seen ==> exists|e: int|
                            0 <= e < rn && (#[trigger] replicas@[e]).replica_id == rid,
                        !seen ==> forall|e: int|
                            0 <= e < t ==> (#[trigger] replicas@[e]).replica_id != rid,
                    decreases rn - t,
                {
                    if replicas[t].replica_id == rid {
                        seen = true;
                    }
                    t += 1;
                }
                let mut in_gvec = false;
                let vn = gvec.len();
                let mut v: usize = 0;
                while v < vn && !in_gvec
                    invariant
                        vn == gvec@.len(),
                        0 <= v <= vn,
                        in_gvec ==> exists|e: int| 0 <= e < vn && #[trigger] gvec@[e] == rid,
                        !in_gvec ==> forall|e: int| 0 <= e < v ==> #[trigger] gvec@[e] != rid,
                    decreases vn - v,
                {
                    if gvec[v] == rid {
                        in_gvec = true;
                    }
                    v += 1;
                }
                if seen || in_gvec {
                    proof {
                        lemma_dup_found(gs, a as int, k as int, replicas@, gvec@, seen);
                    }
                    return Err(ConfError::DupReplica(rid));
                }
                proof {
                    // the member is new within its group
                    assert forall|k1: int| 0 <= k1 < k implies #[trigger] g[k1].replica_id
                        != g[k as int].replica_id by {
                        assert(gvec@[k1] == group_rids(g).take(k as int)[k1]);
                        assert(gvec@[k1] != rid);
                    }
                    // and new against every earlier group
                    assert forall|b: int, l: int|
                        0 <= b < a && 0 <= l < gs[b].len() implies (#[trigger] gs[b][l]).replica_id
                        != g[k as int].replica_id by {
                        lemma_infos_contains(gs.take(a as int), b, l);
                        let e = choose|e: int|
                            0 <= e < infos_of(gs.take(a as int)).len() && #[trigger] infos_of(
                                gs.take(a as int),
                            )[e].0 == gs.take(a as int)[b][l].replica_id;
                        assert(replicas_view(replicas@)[e].0 == replicas@[e].replica_id);
                        assert(replicas@[e].replica_id != rid);
                    }
                }
                gvec.push(rid);
                proof {
                    assert(group_rids(g).take(k as int + 1) =~= group_rids(g).take(
                        k as int,
                    ).push(g[k as int].replica_id));
                }
                k += 1;
            }
            proof {
                assert(gvec@ =~= group_rids(g));
                assert forall|b1: int, l1: int, b2: int, l2: int|
                    0 <= b1 < gs.take(a as int + 1).len() && 0 <= l1 < gs.take(a as int + 1)[b1].len()
                        && 0 <= b2 < gs.take(a as int + 1).len() && 0 <= l2 < gs.take(
                        a as int + 1,
                    )[b2].len() && (b1 != b2 || l1 != l2) implies (#[trigger] gs.take(
                    a as int + 1,
                )[b1][l1]).replica_id != (#[trigger] gs.take(a as int + 1)[b2][l2]).replica_id by {
                    assert(gs.take(a as int + 1)[b1] == gs[b1]);
                    assert(gs.take(a as int + 1)[b2] == gs[b2]);
                    if b1 < a && b2 < a {
                        assert(gs.take(a as int)[b1] == gs[b1]);
                        assert(gs.take(a as int)[b2] == gs[b2]);
                        assert((gs.take(a as int)[b1][l1]).replica_id != (gs.take(
                            a as int,
                        )[b2][l2]).replica_id);
                    } else if b1 == a && b2 == a {
                        if l1 < l2 {
                            assert(g[l1].replica_id != g[l2].replica_id);
                        } else {
                            assert(g[l2].replica_id != g[l1].replica_id);
                        }
                    } else if b1 == a {
                        assert((gs[b2][l2]).replica_id != (g[l1]).replica_id);
                    } else {
                        assert((gs[b1][l1]).replica_id != (g[l2]).replica_id);
                    }
                }
                assert(rids_unique(gs.take(a as int + 1)));
            }
            // the entries this group contributes
            let mut k2: usize = 0;
            while k2 < gsize
                invariant
                    gs == deep_groups(self.groups@),
                    self == old(self),
                    0 <= a < gn,
                    gn == gs.len(),
                    g == gs[a as int],
                    gsize == g.len(),
                    gvec@ == group_rids(g),
                    0 <= k2 <= gsize,
                    rids_unique(gs.take(a as int + 1)),
                    replicas_view(replicas@) =~= infos_of(gs.take(a as int)) + infos_of_group(
                        g,
                    ).take(k2 as int),
                decreases gsize - k2,
            {
                let m = &self.groups[a][k2];
                let entry = ReplicaEntry {
                    replica_id: m.replica_id,
                    info: ReplicaInfo {
                        group: copy_rids(&gvec),
                        node_id: m.node_id.clone(),
                    },
                };
                proof {
                    assert(g[k2 as int] == self.groups@[a as int]@[k2 as int]);
                    assert(entry.replica_id == infos_of_group(g)[k2 as int].0);
                    assert(entry.info@ == infos_of_group(g)[k2 as int].1);
                }
                let ghost prev = replicas@;
                replicas.push(entry);
                proof {
                    assert(replicas@ == prev.push(entry));
                    assert(replicas_view(prev.push(entry)) =~= replicas_view(prev).push(
                        (entry.replica_id, entry.info@),
                    ));
                    assert(infos_of_group(g).take(k2 as int + 1) =~= infos_of_group(g).take(
                        k2 as int,
                    ).push(infos_of_group(g)[k2 as int]));
                    assert(replicas_view(replicas@) =~= infos_of(gs.take(a as int))
                        + infos_of_group(g).take(k2 as int + 1));
                }
                k2 += 1;
            }
            proof {
                assert(infos_of_group(g).take(gsize as int) =~= infos_of_group(g));
                assert(replicas_view(replicas@) =~= infos_of(gs.take(a as int + 1)));
            }
            a += 1;
        }
        proof {
            assert(gs.take(gn as int) =~= gs);
        }
        self.replicas = replicas;
        Ok(())
    }

    /// Checks that every replica lives on a known node; fails with
    /// `OrphanReplica` on the first that does not.
    pub fn check_replicas(&self) -> (r: Result<(), ConfError>)
        ensures
            match r {
                Ok(()) => all_replicas_placed(self),
                Err(err) => err matches ConfError::OrphanReplica(rid, nid) && exists|e: int|
                    {
                        &&& 0 <= e < self.replicas@.len()
                        &&& (#[trigger] self.replicas@[e]).replica_id == rid
                        &&& self.replicas@[e].info.node_id@ == nid@
                        &&& !has_node(self, nid@)
                    },
            },
    {
        let rn = self.replicas.len();
        let mut e: usize = 0;
        while e < rn
            invariant
                rn == self.replicas@.len(),
                0 <= e <= rn,
                forall|x: int|
                    0 <= x < e ==> has_node(self, (#[trigger] self.replicas@[x]).info.node_id@),
            decreases rn - e,
        {
            let nid = &self.replicas[e].info.node_id;
            let nn = self.nodes.len();
            let mut found = false;
            let mut i: usize = 0;
            while i < nn && !found
                invariant
                    nn == self.nodes@.len(),
                    rn == self.replicas@.len(),
                    e < rn,
                    nid@ == self.replicas@[e as int].info.node_id@,
                    0 <= i <= nn,
                    found ==> has_node(self, nid@),
                    !found ==> forall|x: int|
                        0 <= x < i ==> (#[trigger] self.nodes@[x]).node_id@ != nid@,
                decreases nn - i,
            {
                if string_eq(&self.nodes[i].node_id, nid) {
                    found = true;
                    proof {
                        assert(has_node(self, nid@));
                    }
                }
                i += 1;
            }
            if !found {
                proof {
                    assert(!has_node(self, nid@));
                }
                return Err(
                    ConfError::OrphanReplica(
                        self.replicas[e].replica_id,
                        clone_string(&self.replicas[e].info.node_id),
                    ),
                );
            }
            e += 1;
        }
        Ok(())
    }
}

/// Whether the cluster has a node with the given id.
pub open spec fn has_node(c: &ClusterInfo, nid: Seq<char>) -> bool {
    exists|i: int| 0 <= i < c.nodes@.len() && (#[trigger] c.nodes@[i]).node_id@ == nid
}

/// Every replica of the derived map lives on a known node.
pub open spec fn all_replicas_placed(c: &ClusterInfo) -> bool {
    forall|e: int|
        0 <= e < c.replicas@.len() ==> has_node(c, (#[trigger] c.replicas@[e]).info.node_id@)
}

/// The groups as mathematical sequences of members.
pub open spec fn deep_groups(gs: Seq<Vec<GroupMember>>) -> Seq<Seq<GroupMember>> {
    gs.map_values(|g: Vec<GroupMember>| g@)
}

/// A duplicate found while deriving the replica map shows two positions
/// in the groups carrying the same replica id.
proof fn lemma_dup_found(
    gs: Seq<Seq<GroupMember>>,
    a: int,
    k: int,
    replicas: Seq<ReplicaEntry>,
    gvec: Seq<ReplicaId>,
    seen: bool,
)
    requires
        0 <= a < gs.len(),
        0 <= k < gs[a].len(),
        replicas_view(replicas) == infos_of(gs.take(a)),
        gvec =~= group_rids(gs[a]).take(k),
        seen ==> exists|e: int|
            0 <= e < replicas.len() && (#[trigger] replicas[e]).replica_id == gs[a][k].replica_id,
        !seen ==> exists|e: int| 0 <= e < gvec.len() && #[trigger] gvec[e] == gs[a][k].replica_id,
    ensures
        !rids_unique(gs),
{
    let rid = gs[a][k].replica_id;
    if seen {
        let e = choose|e: int|
            0 <= e < replicas.len() && (#[trigger] replicas[e]).replica_id == rid;
        assert(replicas_view(replicas)[e].0 == rid);
        lemma_infos_position(gs.take(a), e);
        let (b, l) = choose|b: int, l: int|
            0 <= b < gs.take(a).len() && 0 <= l < gs.take(a)[b].len() && infos_of(gs.take(a))[e]
                == infos_of_group(gs.take(a)[b])[l] && (#[trigger] gs.take(a)[b][l]).replica_id
                == infos_of(gs.take(a))[e].0;
        assert(gs[b][l].replica_id == rid);
        assert(b < a);
        if rids_unique(gs) {
            assert(gs[b][l].replica_id != gs[a][k].replica_id);
        }
    } else {
        let e = choose|e: int| 0 <= e < gvec.len() && #[trigger] gvec[e] == rid;
        assert(group_rids(gs[a])[e] == rid);
        assert(gs[a][e].replica_id == rid);
        assert(e < k);
        if rids_unique(gs) {
            assert(gs[a][e].replica_id != gs[a][k].replica_id);
        }
    }
}

/// Every position in the groups yields a derived entry with its replica
/// id.
proof fn lemma_infos_contains(gs: Seq<Seq<GroupMember>>, b: int, l: int)
    requires
        0 <= b < gs.len(),
        0 <= l < gs[b].len(),
    ensures
        exists|e: int|
            0 <= e < infos_of(gs).len() && #[trigger] infos_of(gs)[e].0 == gs[b][l].replica_id,
    decreases gs.len(),
{
    if b == gs.len() - 1 {
        assert(gs.last() == gs[b]);
        assert(infos_of(gs)[infos_of(gs.drop_last()).len() + l] == infos_of_group(gs.last())[l]);
        assert(infos_of_group(gs.last())[l].0 == gs[b][l].replica_id);
    } else {
        assert(gs.drop_last()[b] == gs[b]);
        lemma_infos_contains(gs.drop_last(), b, l);
        let e = choose|e: int|
            0 <= e < infos_of(gs.drop_last()).len() && #[trigger] infos_of(gs.drop_last())[e].0
                == gs.drop_last()[b][l].replica_id;
        assert(infos_of(gs)[e] == infos_of(gs.drop_last())[e]);
    }
}

/// Every derived entry comes from some position in the groups.
proof fn lemma_infos_position(gs: Seq<Seq<GroupMember>>, e: int)
    requires
        0 <= e < infos_of(gs).len(),
    ensures
        exists|b: int, l: int|
            0 <= b < gs.len() && 0 <= l < gs[b].len() && infos_of(gs)[e] == infos_of_group(
                gs[b],
            )[l] && (#[trigger] gs[b][l]).replica_id == infos_of(gs)[e].0,
    decreases gs.len(),
{
    if gs.len() > 0 {
        let pre = infos_of(gs.drop_last());
        if e < pre.len() {
            lemma_infos_position(gs.drop_last(), e);
            let (b, l) = choose|b: int, l: int|
                0 <= b < gs.drop_last().len() && 0 <= l < gs.drop_last()[b].len() && infos_of(
                    gs.drop_last(),
                )[e] == infos_of_group(gs.drop_last()[b])[l] && (#[trigger] gs.drop_last()[b][l]).replica_id
                    == infos_of(gs.drop_last())[e].0;
            assert(gs.drop_last()[b] == gs[b]);
            assert(infos_of(gs)[e] == infos_of(gs.drop_last())[e]);
        } else {
            let l = e - pre.len();
            assert(infos_of(gs)[e] == infos_of_group(gs.last())[l]);
            assert(gs[gs.len() - 1] == gs.last());
            assert(gs.last()[l].replica_id == infos_of_group(gs.last())[l].0);
        }
    }
}

/// Copies a vector of replica ids.
fn copy_rids(v: &Vec<ReplicaId>) -> (r: Vec<ReplicaId>)
    ensures
        r@ == v@,
{
    let mut r: Vec<ReplicaId> = Vec::new();
    let n = v.len();
    let mut k: usize = 0;
    while k < n
        invariant
            n == v@.len(),
            0 <= k <= n,
            r@ =~= v@.take(k as int),
        decreases n - k,
    {
        r.push(v[k]);
        proof {
            assert(v@.take(k as int + 1) =~= v@.take(k as int).push(v@[k as int]));
        }
        k += 1;
    }
    proof {
        assert(v@.take(n as int) =~= v@);
    }
    r
}

/// Compares two strings by value.
pub fn string_eq(a: &String, b: &String) -> (r: bool)
    ensures
        r == (a@ == b@),
{
    a.eq(b)
}

/// Copies a string.
pub fn clone_string(s: &String) -> (r: String)
    ensures
        r@ == s@,
{
    s.clone()
}

} // verus!
