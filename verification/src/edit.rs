//! `ff edit`: open an editing session on a commit below the tip. A session
//! is a branch of its own, minted at the commit and recorded with the
//! branch it will replay onto when `ff done` ends it. Here are the verb's
//! refusals and what minting the session records.

use vstd::prelude::*;
use crate::branchmeta::{BranchMeta, Session};
use crate::error::{Error, Result};
use crate::fold::refusal;
use crate::journal::{RefTransition, RefsTable};
use crate::model::HeadState;
use crate::oid::Oid;
use crate::text::string_views;

pub use crate::new::resolve_now;

verus! {

fn exits(a: &str, b: &str) -> (v: Vec<String>)
    ensures
        string_views(v@) == seq![a@, b@],
{
    let mut v: Vec<String> = Vec::new();
    v.push(crate::text::owned(a));
    v.push(crate::text::owned(b));
    proof {
        assert(string_views(v@) =~= seq![a@, b@]);
    }
    v
}

/// The open change is not a commit: editing it is what is already
/// happening.
pub fn open_change_refusal() -> (e: Error)
    ensures
        refusal(
            e,
            "target/unresolvable"@,
            "@ is the open change, not a commit: it is already what you are editing"@,
            seq!["ff edit HEAD"@, "ff log"@],
        ),
{
    Error::coded(
        "target/unresolvable",
        "@ is the open change, not a commit: it is already what you are editing",
        exits("ff edit HEAD", "ff log"),
    )
}

/// The branch the session will replay onto when it ends: the one HEAD
/// stands on, with its tip.
pub fn edit_branch(head: &HeadState) -> (r: Result<(String, String)>)
    ensures
        match *head {
            HeadState::Branch { name, commit, .. } => r == Ok::<(String, String), Error>((name, commit)),
            HeadState::Unborn { .. } => r matches Err(e) && refusal(
                e,
                "target/unresolvable"@,
                "nothing is committed yet: there is nothing to edit"@,
                seq!["ff commit -m <msg>"@],
            ),
            HeadState::Detached { .. } => r matches Err(e) && refusal(
                e,
                "repo/detached"@,
                "detached HEAD: an editing session needs a branch to return to"@,
                seq!["ff switch <branch>"@],
            ),
        },
{
    match head {
        HeadState::Branch { name, commit, .. } => Ok((name.clone(), commit.clone())),
        HeadState::Unborn { .. } => {
            let mut v: Vec<String> = Vec::new();
            v.push(crate::text::owned("ff commit -m <msg>"));
            proof {
                assert(string_views(v@) =~= seq!["ff commit -m <msg>"@]);
            }
            Err(Error::coded("target/unresolvable", "nothing is committed yet: there is nothing to edit", v))
        },
        HeadState::Detached { .. } => {
            let mut v: Vec<String> = Vec::new();
            v.push(crate::text::owned("ff switch <branch>"));
            proof {
                assert(string_views(v@) =~= seq!["ff switch <branch>"@]);
            }
            Err(Error::coded("repo/detached", "detached HEAD: an editing session needs a branch to return to", v))
        },
    }
}

/// Sessions do not nest: a branch that is itself a session (its tip
/// `tip_short` "`tip_subject`") refuses another.
pub fn nested_refusal(in_session: bool, tip_short: &str, tip_subject: &str) -> (r: Option<Error>)
    ensures
        r is Some <==> in_session,
        r matches Some(e) ==> refusal(
            e,
            "session/open"@,
            "already editing "@ + tip_short@ + " \""@ + tip_subject@
                + "\": finish or abandon that session before opening another"@,
            seq!["ff done"@, "ff done --abandon"@, "ff switch <branch>"@],
        ),
{
    if !in_session {
        return None;
    }
    let a = crate::text::concat("already editing ", tip_short);
    let b = crate::text::concat(a.as_str(), " \"");
    let c = crate::text::concat(b.as_str(), tip_subject);
    let m = crate::text::concat(c.as_str(), "\": finish or abandon that session before opening another");
    let mut v: Vec<String> = Vec::new();
    v.push(crate::text::owned("ff done"));
    v.push(crate::text::owned("ff done --abandon"));
    v.push(crate::text::owned("ff switch <branch>"));
    proof {
        assert(string_views(v@) =~= seq!["ff done"@, "ff done --abandon"@, "ff switch <branch>"@]);
    }
    Some(Error::coded("session/open", m.as_str(), v))
}

/// The commit must be in the history of the branch the session returns to:
/// it is exactly when it is among its own merge bases with that branch's
/// tip.
pub fn history_refusal(at: &Oid, bases: &Vec<Oid>, at_short: &str, at_subject: &str, current: &str) -> (r: Option<Error>)
    ensures
        r is None <==> exists|i: int| 0 <= i < bases@.len() && bases@[i]@ == at@,
        r matches Some(e) ==> refusal(
            e,
            "edit/not-in-history"@,
            at_short@ + " \""@ + at_subject@ + "\" is not in "@ + current@
                + "'s history: there is nothing to edit there"@,
            seq!["ff log"@, "ff switch <branch>"@],
        ),
{
    let mut i: usize = 0;
    while i < bases.len()
        invariant
            i <= bases@.len(),
            forall|j: int| 0 <= j < i ==> bases@[j]@ != at@,
        decreases bases.len() - i,
    {
        if bases[i].same(at) {
            return None;
        }
        i += 1;
    }
    let a = crate::text::concat(at_short, " \"");
    let b = crate::text::concat(a.as_str(), at_subject);
    let c = crate::text::concat(b.as_str(), "\" is not in ");
    let d = crate::text::concat(c.as_str(), current);
    let m = crate::text::concat(d.as_str(), "'s history: there is nothing to edit there");
    Some(Error::coded("edit/not-in-history", m.as_str(), exits("ff log", "ff switch <branch>")))
}

/// What minting a session records: its summary, the session branch's
/// creation at the commit (also written into the planned table), the
/// session, and the metadata the new branch starts with.
pub fn mint_record(
    table: &mut RefsTable,
    name: &str,
    at: &Oid,
    at_short: &str,
    onto: &str,
) -> (r: (String, RefTransition, BranchMeta))
    requires
        old(table).wf(),
    ensures
        final(table).wf(),
        final(table).head == old(table).head,
        final(table).map() == old(table).map().insert("refs/heads/"@ + name@, crate::hex::hex_of(at@)),
        r.0@ == "edit "@ + at_short@ + ": session "@ + name@ + " on "@ + onto@,
        crate::branch::created(r.1, "refs/heads/"@ + name@, crate::hex::hex_of(at@)),
        r.2.session matches Some(s) && s.onto@ == onto@ && s.at@ == crate::hex::hex_of(at@),
        r.2.forked_from matches Some(f) && f@ == at_short@,
        r.2.pending_description is None && r.2.parent is None && r.2.held is None && r.2.resolving is None,
{
    let full = crate::branch::heads_ref(name);
    let hex = at.to_hex();
    table.insert(full.as_str(), hex.as_str());
    let a = crate::text::concat("edit ", at_short);
    let b = crate::text::concat(a.as_str(), ": session ");
    let c = crate::text::concat(b.as_str(), name);
    let d = crate::text::concat(c.as_str(), " on ");
    let summary = crate::text::concat(d.as_str(), onto);
    let t = RefTransition { name: full, old: None, new: Some(at.to_hex()) };
    let meta = BranchMeta {
        pending_description: None,
        forked_from: Some(crate::text::owned(at_short)),
        parent: None,
        session: Some(Session { onto: crate::text::owned(onto), at: hex }),
        held: None,
        resolving: None,
    };
    (summary, t, meta)
}

/// The reflog message of a session branch's creation.
pub fn mint_reflog(at_short: &str) -> (r: String)
    ensures
        r@ == "branch: editing session at "@ + at_short@,
{
    crate::text::concat("branch: editing session at ", at_short)
}

} // verus!
