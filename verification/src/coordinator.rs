//! Phases of a durable coordinator run.
use vstd::prelude::*;

verus! {

/// Where a coordinator run stands.
#[derive(Debug, Clone, Copy, PartialEq, Eq, Structural)]
pub enum Phase {
    /// Running agentic rounds.
    Coordinating,
    /// Waiting for offloaded batch jobs.
    AwaitingBatch,
    /// Paused on purpose, to be resumed later.
    Checkpoint,
    /// Finished with an answer.
    Done,
    /// Stopped with an error.
    Failed,
}

} // verus!
