//! The error taxonomy of the replication core.
//!
//! Validation failures travel back to the sender inside a structured
//! reply (`QError`); handler-side conditions (stale ballots, duplicated
//! or delayed replies) and coordinator-side quorum failures are plain
//! enums. No error ever crashes a session.

use vstd::prelude::*;

use crate::ids::BallotNum;
use crate::ids::ReplicaId;
use crate::instance::InstanceStatus;

verus! {

/// A malformed request: which field was wrong, how, and in what context.
#[derive(Debug, PartialEq, Eq)]
pub struct InvalidRequest {
    pub field: String,
    pub problem: String,
    pub ctx: String,
}

/// The mathematical value of an `InvalidRequest`.
pub struct InvalidRequestView {
    pub field: Seq<char>,
    pub problem: Seq<char>,
    pub ctx: Seq<char>,
}

impl View for InvalidRequest {
    type V = InvalidRequestView;

    open spec fn view(&self) -> InvalidRequestView {
        InvalidRequestView { field: self.field@, problem: self.problem@, ctx: self.ctx@ }
    }
}

impl Clone for InvalidRequest {
    /// A clone has the same value as the original.
    fn clone(&self) -> (r: InvalidRequest)
        ensures
            r@ == self@,
    {
        InvalidRequest {
            field: self.field.clone(),
            problem: self.problem.clone(),
            ctx: self.ctx.clone(),
        }
    }
}

impl InvalidRequest {
    /// Builds a validation error from its three parts.
    pub fn of(field: &str, problem: &str, ctx: &str) -> (r: InvalidRequest)
        ensures
            r@ == (InvalidRequestView { field: field@, problem: problem@, ctx: ctx@ }),
    {
        InvalidRequest { field: field.to_owned(), problem: problem.to_owned(), ctx: ctx.to_owned() }
    }
}

/// A storage-layer failure surfaced in a reply.
#[derive(Clone, Copy, Debug, PartialEq, Eq, Structural)]
pub struct StorageFailure {}

/// The structured error a reply can carry: a validation error, a storage
/// failure, or neither.
#[derive(Debug, PartialEq, Eq)]
pub struct QError {
    pub req: Option<InvalidRequest>,
    pub sto: Option<StorageFailure>,
}

/// The mathematical value of a `QError`.
pub struct QErrorView {
    pub req: Option<InvalidRequestView>,
    pub sto: Option<StorageFailure>,
}

impl View for QError {
    type V = QErrorView;

    open spec fn view(&self) -> QErrorView {
        QErrorView {
            req: match self.req {
                Some(r) => Some(r@),
                None => None,
            },
            sto: self.sto,
        }
    }
}

impl Clone for QError {
    /// A clone has the same value as the original.
    fn clone(&self) -> (r: QError)
        ensures
            r@ == self@,
    {
        QError {
            req: match &self.req {
                Some(inv) => Some(inv.clone()),
                None => None,
            },
            sto: self.sto,
        }
    }
}

impl QError {
    /// A reply error wrapping a validation failure.
    pub fn of_invalid(inv: InvalidRequest) -> (r: QError)
        ensures
            r@ == (QErrorView { req: Some(inv@), sto: None }),
    {
        QError { req: Some(inv), sto: None }
    }

    /// A reply error reporting a storage failure.
    pub fn of_storage() -> (r: QError)
        ensures
            r@ == (QErrorView { req: None, sto: Some(StorageFailure {}) }),
    {
        QError { req: None, sto: Some(StorageFailure {}) }
    }
}

/// A storage-layer error with its description.
#[derive(Debug, PartialEq, Eq)]
pub struct StorageError {
    pub msg: String,
}

/// A malformed message at the protocol layer.
#[derive(Debug, PartialEq, Eq)]
pub enum ProtocolError {
    Invalid(InvalidRequest),
}

/// The reply error a protocol error converts to.
pub open spec fn qerror_of_protocol(e: ProtocolError) -> QErrorView {
    match e {
        ProtocolError::Invalid(inv) => QErrorView { req: Some(inv@), sto: None },
    }
}

/// An error raised while a replica serves a request.
#[derive(Debug, PartialEq, Eq)]
pub enum ReplicaError {
    EngineError(StorageError),
    CmdNotSupport(String),
    SystemError(String),
    Existed,
    Protocol(ProtocolError),
    ReplicaNotFound(ReplicaId),
}

/// The reply error a replica error converts to: protocol errors keep
/// their validation payload, everything else surfaces as a storage
/// failure.
pub open spec fn qerror_of_replica_err(e: ReplicaError) -> QErrorView {
    match e {
        ReplicaError::Protocol(p) => qerror_of_protocol(p),
        _ => QErrorView { req: None, sto: Some(StorageFailure {}) },
    }
}

impl ReplicaError {
    /// Converts this error into the structured reply error.
    pub fn to_qerror(self) -> (r: QError)
        ensures
            r@ == qerror_of_replica_err(self),
    {
        match self {
            ReplicaError::EngineError(_) => QError::of_storage(),
            ReplicaError::Existed => QError::of_storage(),
            ReplicaError::CmdNotSupport(_) => QError::of_storage(),
            ReplicaError::SystemError(_) => QError::of_storage(),
            ReplicaError::Protocol(e) => {
                match e {
                    ProtocolError::Invalid(inv) => QError::of_invalid(inv),
                }
            },
            ReplicaError::ReplicaNotFound(_) => QError::of_storage(),
        }
    }
}

/// An error met while handling a request or a reply.
#[derive(Debug, PartialEq, Eq)]
pub enum HandlerError {
    /// A reply arrived from a sender already counted for this phase.
    Dup(ReplicaId),
    /// The remote peer reported an error.
    RemoteError(QError),
    /// The ballot was too small to proceed: the stale one, then the last
    /// one seen.
    StaleBallot(BallotNum, BallotNum),
    /// A malformed message.
    Protocol(ProtocolError),
    /// A replica-level failure.
    Replica(ReplicaError),
    /// A storage-level failure.
    Storage(StorageError),
    /// A reply arrived for a phase the instance has already left: the
    /// instance's phase, then the reply's.
    DelayedReply(InstanceStatus, InstanceStatus),
}

/// An error met while replicating an instance, surfaced to the caller.
#[derive(Debug, PartialEq, Eq)]
pub enum ReplicationError {
    /// No decision within the allowed time.
    Timeout { msec: i64 },
    /// Too few fast-path replies: wanted at least `want`, got `got`.
    NotEnoughFastQuorum { want: i64, got: i64 },
    /// Too few classic-quorum replies: wanted at least `want`, got `got`.
    NotEnoughQuorum { want: i64, got: i64 },
}

/// An error in the cluster configuration, fatal at startup.
#[derive(Debug, PartialEq, Eq)]
pub enum ConfError {
    /// A replica id appears in two groups.
    DupReplica(ReplicaId),
    /// A replica references a node that does not exist.
    OrphanReplica(ReplicaId, String),
}

} // verus!
