//! The refusals a verb meets before it does anything: a repository with no
//! working tree, a git operation half done, an editing session underfoot.

use vstd::prelude::*;
use crate::error::Error;
use crate::fold::refusal;
use crate::model::InProgress;

verus! {

/// An operation in progress, spelled as git's state names it.
pub open spec fn op_name(op: InProgress) -> Seq<char> {
    match op {
        InProgress::ApplyMailbox => "ApplyMailbox"@,
        InProgress::ApplyMailboxRebase => "ApplyMailboxRebase"@,
        InProgress::Bisect => "Bisect"@,
        InProgress::CherryPick => "CherryPick"@,
        InProgress::CherryPickSequence => "CherryPickSequence"@,
        InProgress::Merge => "Merge"@,
        InProgress::Rebase => "Rebase"@,
        InProgress::RebaseInteractive => "RebaseInteractive"@,
        InProgress::Revert => "Revert"@,
        InProgress::RevertSequence => "RevertSequence"@,
    }
}

impl InProgress {
    /// The operation's name, as the refusals spell it.
    pub fn name(self) -> (r: &'static str)
        ensures
            r@ == op_name(self),
    {
        match self {
            InProgress::ApplyMailbox => "ApplyMailbox",
            InProgress::ApplyMailboxRebase => "ApplyMailboxRebase",
            InProgress::Bisect => "Bisect",
            InProgress::CherryPick => "CherryPick",
            InProgress::CherryPickSequence => "CherryPickSequence",
            InProgress::Merge => "Merge",
            InProgress::Rebase => "Rebase",
            InProgress::RebaseInteractive => "RebaseInteractive",
            InProgress::Revert => "Revert",
            InProgress::RevertSequence => "RevertSequence",
        }
    }
}

/// How a refusal over an operation in progress says to get out of it: a
/// rewriting verb points at the aborts, a commit at finishing the commit,
/// `ff done` at `git status`, and a verb refused over another worktree at
/// that worktree.
#[derive(Debug, Clone)]
pub enum Finish {
    Rewrite,
    Commit,
    Done,
    There(String),
}

/// The words after the operation's name.
pub open spec fn finish_text(f: Finish) -> Seq<char> {
    match f {
        Finish::Rewrite => " is in progress: finish it with git (git rebase --abort / git merge --abort); fufu owns merges in a later phase"@,
        Finish::Commit => " is in progress: finish it with git (git commit / git merge --abort); fufu owns merges in a later phase"@,
        Finish::Done => " is in progress: use git status, then finish or abort that operation with Git"@,
        Finish::There(path) => " is in progress in "@ + path@ + ": finish it with git there first"@,
    }
}

/// The refusal of a verb while git is in the middle of `op`.
pub fn mid_operation(op: InProgress, finish: &Finish) -> (e: Error)
    ensures
        refusal(e, "repo/mid-operation"@, "a "@ + op_name(op) + finish_text(*finish), seq![]),
{
    let a = crate::text::concat("a ", op.name());
    let m = match finish {
        Finish::Rewrite => crate::text::concat(
            a.as_str(),
            " is in progress: finish it with git (git rebase --abort / git merge --abort); fufu owns merges in a later phase",
        ),
        Finish::Commit => crate::text::concat(
            a.as_str(),
            " is in progress: finish it with git (git commit / git merge --abort); fufu owns merges in a later phase",
        ),
        Finish::Done => crate::text::concat(
            a.as_str(),
            " is in progress: use git status, then finish or abort that operation with Git",
        ),
        Finish::There(path) => {
            let b = crate::text::concat(a.as_str(), " is in progress in ");
            let c = crate::text::concat(b.as_str(), path.as_str());
            crate::text::concat(c.as_str(), ": finish it with git there first")
        },
    };
    let v: Vec<String> = Vec::new();
    proof {
        assert(crate::text::string_views(v@) =~= Seq::<Seq<char>>::empty());
        assert(m@ =~= "a "@ + op_name(op) + finish_text(*finish));
    }
    Error::coded("repo/mid-operation", m.as_str(), v)
}

/// The refusal of a verb in a repository with no working tree: there is
/// nothing for it to `what` (`commit`, `finish`, `edit`, `fold`, ...).
pub fn bare_refusal(what: &str) -> (e: Error)
    ensures
        refusal(e, "repo/bare"@, "bare repository: nothing to "@ + what@, seq![]),
{
    let m = crate::text::concat("bare repository: nothing to ", what);
    let v: Vec<String> = Vec::new();
    proof {
        assert(crate::text::string_views(v@) =~= Seq::<Seq<char>>::empty());
    }
    Error::coded("repo/bare", m.as_str(), v)
}

/// The refusal of `ff commit` on an editing session: a commit there would
/// land where no verb can describe, and `ff done` is what was meant.
/// `short` and `subject` are the session tip's.
pub fn session_commit_refusal(name: &str, short: &str, subject: &str) -> (e: Error)
    ensures
        refusal(
            e,
            "session/open"@,
            name@ + " is an editing session on "@ + short@ + " \""@ + subject@
                + "\": a commit here would land somewhere no verb can describe"@,
            seq!["ff done"@, "ff done --abandon"@, "ff switch <branch>"@],
        ),
{
    let a = crate::text::concat(name, " is an editing session on ");
    let b = crate::text::concat(a.as_str(), short);
    let c = crate::text::concat(b.as_str(), " \"");
    let d = crate::text::concat(c.as_str(), subject);
    let m = crate::text::concat(d.as_str(), "\": a commit here would land somewhere no verb can describe");
    let mut v: Vec<String> = Vec::new();
    v.push(crate::text::owned("ff done"));
    v.push(crate::text::owned("ff done --abandon"));
    v.push(crate::text::owned("ff switch <branch>"));
    proof {
        assert(crate::text::string_views(v@) =~= seq!["ff done"@, "ff done --abandon"@, "ff switch <branch>"@]);
    }
    Error::coded("session/open", m.as_str(), v)
}

/// What a close checks before it captures anything, in the order it
/// refuses: no working tree, a git operation in progress, an editing
/// session underfoot (its name, its tip's short id and subject), and then
/// the first path named that names nothing.
pub fn close_refusal(
    bare: bool,
    in_progress: Option<InProgress>,
    session: Option<(String, String, String)>,
    missing_path: Option<String>,
) -> (r: Option<Error>)
    ensures
        bare ==> (r matches Some(e) && refusal(e, "repo/bare"@, "bare repository: nothing to "@ + "commit"@, seq![])),
        !bare && in_progress is Some ==> (r matches Some(e) && refusal(
            e,
            "repo/mid-operation"@,
            "a "@ + op_name(in_progress->0) + finish_text(Finish::Commit),
            seq![],
        )),
        !bare && in_progress is None ==> (session matches Some(x) ==> (r matches Some(e) && refusal(
            e,
            "session/open"@,
            x.0@ + " is an editing session on "@ + x.1@ + " \""@ + x.2@
                + "\": a commit here would land somewhere no verb can describe"@,
            seq!["ff done"@, "ff done --abandon"@, "ff switch <branch>"@],
        ))),
        !bare && in_progress is None && session is None && missing_path is Some ==> (r matches Some(e)
            && crate::close::no_such_path_refusal(e, missing_path->0@)),
        !bare && in_progress is None && session is None && missing_path is None ==> r is None,
{
    if bare {
        return Some(bare_refusal("commit"));
    }
    if let Some(op) = in_progress {
        return Some(mid_operation(op, &Finish::Commit));
    }
    if let Some((name, short, subject)) = session {
        return Some(session_commit_refusal(name.as_str(), short.as_str(), subject.as_str()));
    }
    if let Some(p) = missing_path {
        return Some(crate::close::no_such_path(p.as_str()));
    }
    None
}

} // verus!
