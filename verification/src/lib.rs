//! An append-only causal operation log for a collaborative text editor.
//!
//! The log records every operation ever applied to a replica, together with
//! the causal graph (parents / happens-before) over contiguous integer
//! timestamps, the bidirectional mapping between local times and
//! `(agent name, sequence number)` pairs used on the wire, and the frontier
//! (the current tips of the graph).

use vstd::prelude::*;

pub mod agent;
pub mod check;
pub mod dot;
pub mod encoding;
pub mod eq;
pub mod frontier;
pub mod history;
pub mod operation;
pub mod oplog;
pub mod remote;
pub mod rle;
pub mod span;

verus! {

/// A local timestamp: densely allocated in append order across all agents.
pub type Time = usize;

/// A compact local identifier for an agent.
pub type AgentId = u32;

/// Sentinel time denoting the virtual origin before any operation.
pub const ROOT_TIME: usize = usize::MAX;

/// Reserved agent id for the virtual origin.
pub const ROOT_AGENT: AgentId = u32::MAX;

} // verus!
