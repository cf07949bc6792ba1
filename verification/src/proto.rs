//! Wire protocol between the CLI/hook and the daemon.
//!
//! Newline-delimited JSON over a unix socket: one request, one response, close.
//! Deliberately dumb: the hook path needs to be cheap and easy to debug, not clever.
use vstd::prelude::*;
use crate::index::IndexStats;
use crate::recall::{Hit, Pointer};
use crate::store::RootCount;

verus! {

/// How many hits a search is for where the caller does not say.
pub const DEFAULT_K: usize = 3;

/// What the daemon can be asked.
#[derive(Debug, Clone, PartialEq, Eq)]
pub enum Request {
    Ping,
    Status,
    Search { query: String, k: usize, filter: Option<String> },
    /// Hook path: returns pointers only, never chunk bodies.
    Recall { prompt: String },
    Reindex { full: bool },
}

/// What one root reported.
#[derive(Debug, Clone, PartialEq, Eq)]
pub struct LabelCount {
    pub label: String,
    pub count: RootCount,
}

/// What the daemon answers.
#[derive(Debug, Clone, PartialEq, Eq)]
pub enum Response {
    Pong { pid: u32 },
    /// Row count (or query failure) per root, in ascending order of the labels.
    Status { roots: Vec<LabelCount>, db: String },
    Hits { hits: Vec<Hit>, elapsed_ms: u64 },
    /// Pointers, and the best candidate before the hook's threshold. Logging that for misses
    /// makes tuning the threshold evidence-based rather than guesswork.
    Pointers { pointers: Vec<Pointer>, elapsed_ms: u64, top_cosine: Option<u32> },
    Reindexed { stats: IndexStats },
    Error { message: String },
}

} // verus!
