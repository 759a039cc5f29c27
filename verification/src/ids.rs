//! Replica and instance identifiers, and ballot numbers.
//!
//! An `InstanceId` is the pair of the leader's replica id and the per-leader
//! monotonic position; instance ids are totally ordered lexicographically.
//! A `BallotNum` is the triple `(epoch, num, replica_id)`, also ordered
//! lexicographically; the trailing replica id breaks ties between
//! concurrent proposers.

use vstd::prelude::*;

verus! {

/// A signed integer uniquely identifying a replica within a group.
pub type ReplicaId = i64;

/// The per-leader monotonic position of an instance; non-negative.
pub type InstanceIdx = i64;

/// The identity of an instance: the leader that created it and its
/// position in that leader's log.
#[derive(Clone, Copy, Debug, PartialEq, Eq, PartialOrd, Ord, Structural, Hash)]
pub struct InstanceId {
    pub replica_id: ReplicaId,
    pub idx: InstanceIdx,
}

/// Lexicographic order on instance ids.
pub open spec fn iid_lt(a: InstanceId, b: InstanceId) -> bool {
    a.replica_id < b.replica_id || (a.replica_id == b.replica_id && a.idx < b.idx)
}

impl InstanceId {
    /// Builds an instance id from its two components.
    pub fn new(replica_id: ReplicaId, idx: InstanceIdx) -> (r: InstanceId)
        ensures
            r == (InstanceId { replica_id, idx }),
    {
        InstanceId { replica_id, idx }
    }

    /// Compares two instance ids in the lexicographic order.
    pub fn lt(&self, other: &InstanceId) -> (r: bool)
        ensures
            r == iid_lt(*self, *other),
    {
        self.replica_id < other.replica_id
            || (self.replica_id == other.replica_id && self.idx < other.idx)
    }
}

impl From<(i64, i64)> for InstanceId {
    /// Builds an instance id from a `(replica_id, idx)` pair.
    fn from(t: (i64, i64)) -> (r: InstanceId) {
        InstanceId { replica_id: t.0, idx: t.1 }
    }
}

impl vstd::std_specs::convert::FromSpecImpl<(i64, i64)> for InstanceId {
    open spec fn obeys_from_spec() -> bool {
        true
    }

    open spec fn from_spec(t: (i64, i64)) -> InstanceId {
        InstanceId { replica_id: t.0, idx: t.1 }
    }
}

/// A ballot number: `(epoch, num, replica_id)`, compared lexicographically.
#[derive(Clone, Copy, Debug, PartialEq, Eq, PartialOrd, Ord, Structural, Hash)]
pub struct BallotNum {
    pub epoch: i32,
    pub num: i32,
    pub replica_id: ReplicaId,
}

/// Strict lexicographic order on ballot numbers.
pub open spec fn ballot_lt(a: BallotNum, b: BallotNum) -> bool {
    a.epoch < b.epoch
        || (a.epoch == b.epoch && a.num < b.num)
        || (a.epoch == b.epoch && a.num == b.num && a.replica_id < b.replica_id)
}

/// Inclusive lexicographic order on ballot numbers.
pub open spec fn ballot_le(a: BallotNum, b: BallotNum) -> bool {
    ballot_lt(a, b) || a == b
}

/// Strict order on optional ballots; an absent ballot is below every
/// present one.
pub open spec fn opt_ballot_lt(a: Option<BallotNum>, b: Option<BallotNum>) -> bool {
    match (a, b) {
        (None, None) => false,
        (None, Some(_)) => true,
        (Some(_), None) => false,
        (Some(x), Some(y)) => ballot_lt(x, y),
    }
}

/// Inclusive order on optional ballots.
pub open spec fn opt_ballot_le(a: Option<BallotNum>, b: Option<BallotNum>) -> bool {
    opt_ballot_lt(a, b) || a == b
}

impl BallotNum {
    /// Builds a ballot from its three components.
    pub fn new(epoch: i32, num: i32, replica_id: ReplicaId) -> (r: BallotNum)
        ensures
            r == (BallotNum { epoch, num, replica_id }),
    {
        BallotNum { epoch, num, replica_id }
    }

    /// Compares two ballots in the lexicographic order.
    pub fn lt(&self, other: &BallotNum) -> (r: bool)
        ensures
            r == ballot_lt(*self, *other),
    {
        self.epoch < other.epoch
            || (self.epoch == other.epoch && self.num < other.num)
            || (self.epoch == other.epoch && self.num == other.num
                && self.replica_id < other.replica_id)
    }
}

impl From<(i32, i32, i64)> for BallotNum {
    /// Builds a ballot from an `(epoch, num, replica_id)` triple.
    fn from(t: (i32, i32, i64)) -> (r: BallotNum) {
        BallotNum { epoch: t.0, num: t.1, replica_id: t.2 }
    }
}

impl vstd::std_specs::convert::FromSpecImpl<(i32, i32, i64)> for BallotNum {
    open spec fn obeys_from_spec() -> bool {
        true
    }

    open spec fn from_spec(t: (i32, i32, i64)) -> BallotNum {
        BallotNum { epoch: t.0, num: t.1, replica_id: t.2 }
    }
}

/// Compares two optional ballots, an absent ballot ranking below every
/// present one.
pub fn opt_ballot_less(a: &Option<BallotNum>, b: &Option<BallotNum>) -> (r: bool)
    ensures
        r == opt_ballot_lt(*a, *b),
{
    match (a, b) {
        (Option::None, Option::None) => false,
        (Option::None, Option::Some(_)) => true,
        (Option::Some(_), Option::None) => false,
        (Option::Some(x), Option::Some(y)) => x.lt(y),
    }
}

/// The order on optional ballots is total: what is not strictly below is
/// at or above.
pub proof fn lemma_opt_ballot_total(a: Option<BallotNum>, b: Option<BallotNum>)
    ensures
        opt_ballot_lt(a, b) || opt_ballot_lt(b, a) || a == b,
        !opt_ballot_lt(a, b) ==> opt_ballot_le(b, a),
{
}

} // verus!
