//! A verified core of an EPaxos-style replicated command log.
//!
//! The crate models the per-replica command-replication state machine:
//! instance identifiers and ballots, command conflict, dependency vectors,
//! the fast-path / slow-path protocol handlers, the commit rules, the
//! durable key codec, an ordered in-memory storage engine, and the
//! deterministic execution order over the committed dependency graph.

pub mod command;
pub mod conf;
pub mod coordinator;
pub mod deps;
pub mod engine;
pub mod errors;
pub mod exec;
pub mod fixtures;
pub mod fmt;
pub mod ids;
pub mod instance;
pub mod keys;
pub mod message;
pub mod quorums;
pub mod replica;
pub mod storage;
