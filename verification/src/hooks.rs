//! Commit-time hooks: which of git's four a verb runs, what it hands them,
//! and what their refusal says. The tree hook runs where worktree content
//! becomes commit content, and the message hooks run where a message is
//! authored for a commit; `--no-verify` suppresses `pre-commit` and
//! `commit-msg` and nothing else.

use vstd::prelude::*;
use crate::error::Error;
use crate::index::IndexBackup;

verus! {

/// Whether a verb runs the hooks `--no-verify` suppresses.
#[derive(Debug, Clone, Copy, PartialEq, Eq, Structural)]
pub enum Verify {
    /// Run every hook the verb owes.
    Run,
    /// `--no-verify`.
    Skip,
}

impl Default for Verify {
    fn default() -> (r: Verify)
        ensures
            r == Verify::Run,
    {
        Verify::Run
    }
}

/// The two hooks `--no-verify` suppresses.
pub open spec fn gated(name: Seq<char>) -> bool {
    name == "pre-commit"@ || name == "commit-msg"@
}

impl Verify {
    /// Whether this run reaches `name`: `--no-verify` suppresses
    /// `pre-commit` and `commit-msg` and nothing else, since
    /// `prepare-commit-msg` is not skipped by it and `post-commit` is a
    /// notification rather than a gate.
    pub fn runs(self, name: &str) -> (r: bool)
        ensures
            r == (self == Verify::Run || !gated(name@)),
    {
        self == Verify::Run || !(crate::text::str_eq(name, "pre-commit") || crate::text::str_eq(name, "commit-msg"))
    }
}

/// `prepare-commit-msg`'s second argument: where the message came from.
#[derive(Debug)]
pub enum MsgSource<'a> {
    /// `-m`, or a pending description: text the user already supplied.
    Message,
    /// An amend-shaped rewrite: the commit whose message is being reworked,
    /// passed on as the hook's third argument the way git does.
    Commit(&'a str),
    /// No source applies, so the hook gets the message file alone.
    Unspecified,
}

/// The arguments `prepare-commit-msg` gets: the message file, then the
/// source's word and, for a commit, its sha.
pub fn prepare_args(file: &str, source: &MsgSource) -> (r: Vec<String>)
    ensures
        crate::text::string_views(r@) == match *source {
            MsgSource::Message => seq![file@, "message"@],
            MsgSource::Commit(sha) => seq![file@, "commit"@, sha@],
            MsgSource::Unspecified => seq![file@],
        },
{
    let mut args: Vec<String> = Vec::new();
    args.push(crate::text::owned(file));
    match source {
        MsgSource::Message => args.push(crate::text::owned("message")),
        MsgSource::Commit(sha) => {
            args.push(crate::text::owned("commit"));
            args.push(crate::text::owned(sha));
        },
        MsgSource::Unspecified => {},
    }
    assert(crate::text::string_views(args@) =~= match *source {
        MsgSource::Message => seq![file@, "message"@],
        MsgSource::Commit(sha) => seq![file@, "commit"@, sha@],
        MsgSource::Unspecified => seq![file@],
    });
    args
}

/// Which message hooks a message goes through, given which exist: the
/// preparing hook whenever it exists, the checking hook when it exists and
/// the run is not `--no-verify`. Neither means the message stands as given.
pub fn message_plan(prepare_exists: bool, check_exists: bool, verify: Verify) -> (r: (bool, bool))
    ensures
        r.0 == prepare_exists,
        r.1 == (check_exists && verify == Verify::Run),
{
    let finish = verify.runs("commit-msg") && check_exists;
    proof {
        reveal_strlit("commit-msg");
        reveal_strlit("pre-commit");
        assert("commit-msg"@[0] != "pre-commit"@[0]);
    }
    (prepare_exists, finish)
}

/// A hook's refusal: a non-zero exit aborts the verb, and the way out is
/// the verb's own `--no-verify`.
pub fn declined(name: &str, verb: &str) -> (e: Error)
    ensures
        e matches Error::Coded { id, message, exits } && id@ == "hook/declined"@
            && message@ == name@ + " hook declined the commit"@
            && crate::text::string_views(exits@) == seq!["ff "@ + verb@ + " --no-verify"@],
{
    let m = crate::text::concat(name, " hook declined the commit");
    let a = crate::text::concat("ff ", verb);
    let x = crate::text::concat(a.as_str(), " --no-verify");
    let mut exits: Vec<String> = Vec::new();
    exits.push(x);
    assert(crate::text::string_views(exits@) =~= seq!["ff "@ + verb@ + " --no-verify"@]);
    Error::coded("hook/declined", m.as_str(), exits)
}

/// The index window a `pre-commit` gate runs inside: the index as it stood
/// is put back when the window closes, unless the verb landed.
#[derive(Debug)]
pub struct Window {
    pub backup: IndexBackup,
}

impl Window {
    /// The verb landed: the staged index is no longer provisional, and
    /// putting the old one back would contradict the refs that just moved.
    pub fn landed(&mut self)
        ensures
            !final(self).backup.armed,
            final(self).backup.path == old(self).backup.path,
            final(self).backup.bytes == old(self).backup.bytes,
    {
        self.backup.disarm();
    }
}

} // verus!
