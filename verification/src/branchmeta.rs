//! Per-branch metadata: the pending description the next close consumes,
//! the fork base, the parent a `ff start` forked from, the editing session
//! a branch is sitting in, the rewrite held on it, and the resolution open
//! on it. An empty record is no record: the file goes.

use vstd::prelude::*;
use crate::held::{Held, Resolve};

verus! {

/// An unfinished editing session, recorded on the branch that is the
/// session: the branch its commits replay onto at `ff done`, and the commit
/// it opened at.
#[derive(Debug, Clone, PartialEq, Eq)]
pub struct Session {
    pub onto: String,
    /// Full sha.
    pub at: String,
}

/// One branch's metadata.
#[derive(Debug, Clone, Default)]
pub struct BranchMeta {
    /// Consumed by the next close on this branch.
    pub pending_description: Option<String>,
    /// The commit this branch was forked from, when fufu minted it.
    pub forked_from: Option<String>,
    /// The branch this one was explicitly forked from.
    pub parent: Option<String>,
    /// Set iff this branch is an unfinished editing session.
    pub session: Option<Session>,
    /// Set iff a rewrite on this branch conflicted and is waiting.
    pub held: Option<Held>,
    /// Set iff a resolution session is open on this branch.
    pub resolving: Option<Resolve>,
}

impl BranchMeta {
    /// Whether the record says nothing, so that writing it removes the file.
    pub fn is_empty(&self) -> (r: bool)
        ensures
            r == (self.pending_description is None && self.forked_from is None && self.parent is None
                && self.session is None && self.held is None && self.resolving is None),
    {
        self.pending_description.is_none() && self.forked_from.is_none() && self.parent.is_none()
            && self.session.is_none() && self.held.is_none() && self.resolving.is_none()
    }
}

} // verus!
