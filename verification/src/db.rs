//! Rows of the durable store.
use vstd::prelude::*;

verus! {

/// One coordinator run, as stored.
#[derive(Debug)]
pub struct CoordinatorRow {
    pub run_id: String,
    pub task: String,
    pub phase: String,
    pub result: Option<String>,
    pub error: Option<String>,
    pub session_id: Option<String>,
    pub session_name: Option<String>,
    pub created_at: Option<String>,
    pub heartbeat_at: Option<String>,
}

} // verus!
