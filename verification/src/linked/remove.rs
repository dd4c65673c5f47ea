//! Removing a linked worktree: what may not be removed, and what the
//! capture taken before the teardown leaves to name.

use vstd::prelude::*;
use crate::error::Error;
use crate::text::string_views;

verus! {

/// A linked worktree that was removed.
#[derive(Debug, Clone, PartialEq, Eq)]
pub struct Removed {
    pub id: String,
    /// Where the checkout stood, or `None` when the entry no longer named
    /// one.
    pub path: Option<String>,
}

/// What capturing a worktree's tree before its removal came to.
#[derive(Debug, Clone, PartialEq, Eq)]
pub enum Capture {
    /// A new operation holds the tree.
    Created { id: String },
    /// Nothing new was needed; the chain's tip, when it has one, already
    /// holds the tree.
    NoOp { tip: Option<String> },
    /// Something else holds the worktree's operation log.
    Contended,
}

/// The refusals a removal makes before it reads anything: the main
/// worktree is never removed, nor the one the command runs in. `None` when
/// `id` names neither.
pub fn removal_refusal(id: &str, current: &str) -> (r: Option<Error>)
    ensures
        id@ == crate::linked::MAIN_ID@ ==> (r matches Some(Error::Coded { id: i, message, exits })
            && i@ == "worktree/is-main"@ && message@ == "the main worktree cannot be removed"@
            && string_views(exits@) == seq!["git worktree list"@]),
        id@ != crate::linked::MAIN_ID@ && id@ == current@ ==> (r matches Some(
            Error::Coded { id: i, message, exits },
        ) && i@ == "worktree/is-current"@ && message@ == id@
            + " is the worktree you are in; run this from another one"@ && string_views(exits@)
            == seq!["ff worktree list"@]),
        id@ != crate::linked::MAIN_ID@ && id@ != current@ ==> r is None,
{
    if crate::text::str_eq(id, crate::linked::MAIN_ID) {
        let mut exits: Vec<String> = Vec::new();
        exits.push(crate::text::owned("git worktree list"));
        proof {
            assert(string_views(exits@) =~= seq!["git worktree list"@]);
        }
        Some(Error::coded("worktree/is-main", "the main worktree cannot be removed", exits))
    } else if crate::text::str_eq(id, current) {
        let mut exits: Vec<String> = Vec::new();
        exits.push(crate::text::owned("ff worktree list"));
        proof {
            assert(string_views(exits@) =~= seq!["ff worktree list"@]);
        }
        let message = crate::text::concat(id, " is the worktree you are in; run this from another one");
        Some(Error::coded("worktree/is-current", message.as_str(), exits))
    } else {
        None
    }
}

/// The capture a removal records: the new operation's id, or the tip that
/// already held the tree, or nothing for a worktree with no operations. A
/// worktree whose log is locked is refused, and nothing is removed.
pub fn capture_kept(id: &str, capture: Capture) -> (r: Result<Option<String>, Error>)
    ensures
        match capture {
            Capture::Created { id: c } => r == Ok::<Option<String>, Error>(Some(c)),
            Capture::NoOp { tip } => r == Ok::<Option<String>, Error>(tip),
            Capture::Contended => r matches Err(Error::Coded { id: i, message, exits }) && i@
                == "worktree/busy"@ && message@ == "something is running in "@ + id@
                + ": its operation log is locked"@ && string_views(exits@) == seq![
                "ff worktree list"@,
            ],
        },
{
    match capture {
        Capture::Created { id: c } => Ok(Some(c)),
        Capture::NoOp { tip } => Ok(tip),
        Capture::Contended => {
            let mut exits: Vec<String> = Vec::new();
            exits.push(crate::text::owned("ff worktree list"));
            proof {
                assert(string_views(exits@) =~= seq!["ff worktree list"@]);
            }
            let a = crate::text::concat("something is running in ", id);
            let message = crate::text::concat(a.as_str(), ": its operation log is locked");
            Err(Error::coded("worktree/busy", message.as_str(), exits))
        },
    }
}

/// The summary a removal's operation records.
pub fn removal_summary(id: &str) -> (r: String)
    ensures
        r@ == "remove worktree "@ + id@,
{
    crate::text::concat("remove worktree ", id)
}

/// The refusal of an id that no linked worktree is filed under.
pub fn worktree_not_found(id: &str) -> (e: Error)
    ensures
        e matches Error::Coded { id: i, message, exits } && i@ == "worktree/not-found"@
            && message@ == "no linked worktree named "@ + id@ && string_views(exits@) == seq!["git worktree list"@],
{
    let mut exits: Vec<String> = Vec::new();
    exits.push(crate::text::owned("git worktree list"));
    proof {
        assert(string_views(exits@) =~= seq!["git worktree list"@]);
    }
    let message = crate::text::concat("no linked worktree named ", id);
    Error::coded("worktree/not-found", message.as_str(), exits)
}

} // verus!
