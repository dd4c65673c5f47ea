//! The commit log: what was asked of it, and what it hands back.

use vstd::prelude::*;
use crate::model::LogEntry;

verus! {

/// What `ff log` was asked to show.
#[derive(Debug, Clone, Default)]
pub struct LogOptions {
    /// Maximum number of commit rows; `None` is unlimited.
    pub limit: Option<usize>,
    /// `-r`: the revset the rows come from, as typed. `None` is the walk
    /// from HEAD.
    pub revs: Option<String>,
    /// Restrict the rows to commits that touch these paths; empty means
    /// every commit.
    pub paths: Vec<String>,
}

/// A log: the commit rows, and whether the open change belongs to the set
/// they came from. Always true for the walk from HEAD.
#[derive(Debug, Clone)]
pub struct Log {
    pub open: bool,
    pub entries: Vec<LogEntry>,
}

} // verus!
