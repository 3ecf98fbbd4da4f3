//! The records of the journal.
use vstd::prelude::*;
use crate::order::{Weigh, Weighted};

verus! {

/// A command that was run.
#[derive(Debug, Clone)]
pub struct JournalEntry {
    pub id: Option<i64>,
    pub command_line: String,
    pub cwd: String,
    pub exit_code: Option<i32>,
    pub duration_ms: Option<u64>,
    pub session_id: String,
    pub timestamp: u64,
}

/// What became of a suggestion. The score is the literal that the shell sent.
#[derive(Debug, Clone)]
pub struct FeedbackEntry {
    pub id: Option<i64>,
    pub command_line: String,
    pub source: String,
    pub score: Option<String>,
    pub accepted: bool,
    pub session_id: String,
    pub timestamp: u64,
}

/// A directory listing that was kept.
#[derive(Debug, Clone)]
pub struct PathCacheEntry {
    pub dir_path: String,
    pub entries_json: String,
    pub entry_count: usize,
    pub cached_at: u64,
}

/// How often and when last a command stands in the history file.
#[derive(Debug, Clone)]
pub struct SeededCommandStat {
    pub command_line: String,
    pub latest_timestamp: u64,
    pub sample_count: u64,
}

impl Weighted for SeededCommandStat {
    open spec fn weight(self) -> int {
        self.latest_timestamp as int
    }
}

impl Weigh for SeededCommandStat {
    fn weigh(&self) -> (w: i128) {
        self.latest_timestamp as i128
    }
}

/// How often and when last a command was run.
#[derive(Debug, Clone)]
pub struct RankedCommand {
    pub command_line: String,
    pub timestamp: u64,
    pub frequency: u64,
}

/// How often a command followed another.
#[derive(Debug, Clone)]
pub struct TransitionCount {
    pub command_line: String,
    pub count: u64,
}

} // verus!
