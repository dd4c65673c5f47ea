//! Creating a linked worktree: the branch it stands on, the refusals, and
//! the administrative files, which are byte for byte what `git worktree
//! add` writes.

use vstd::prelude::*;
use crate::error::{Error, Result};
use crate::fold::refusal;
use crate::hex::hex_of;
use crate::oid::Oid;
use crate::text::{decimal, string_views};

verus! {

/// A linked worktree that was created.
#[derive(Debug, Clone, PartialEq, Eq)]
pub struct Created {
    /// The id git files it under, and its operation chain's key.
    pub id: String,
    /// Where it was checked out, absolute.
    pub path: String,
    /// The branch it stands on, short form.
    pub branch: String,
    /// The commit that branch pointed at.
    pub head: Oid,
}

/// The files of a worktree's administrative directory, and the `.git` file
/// of its checkout.
#[derive(Debug, Clone)]
pub struct Layout {
    pub commondir: String,
    pub gitdir: String,
    pub head: String,
    pub orig_head: String,
    pub log_head: String,
    pub dot_git: String,
}

/// An integer in decimal, with a minus sign when negative.
pub open spec fn signed_decimal(n: int) -> Seq<char> {
    if n < 0 { "-"@ + decimal((-n) as nat) } else { decimal(n as nat) }
}

/// `n` in decimal, signed.
pub fn signed_string(n: i64) -> (r: String)
    ensures
        r@ == signed_decimal(n as int),
{
    if n < 0 {
        let m: u64 = (-(n as i128)) as u64;
        let d = crate::text::decimal_string(m);
        crate::text::concat("-", d.as_str())
    } else {
        crate::text::decimal_string(n as u64)
    }
}

/// The layout of a worktree checked out at `dest` (absolute), filed at
/// `admin`, standing on `branch` at `head`: the reflog line is written as
/// `name <email>` at `now`.
pub fn layout(dest: &str, admin: &str, branch: &str, head: &Oid, name: &str, email: &str, now: i64) -> (r: Layout)
    ensures
        r.commondir@ == "../..\n"@,
        r.gitdir@ == dest@ + "/.git"@ + "\n"@,
        r.head@ == "ref: refs/heads/"@ + branch@ + "\n"@,
        r.orig_head@ == hex_of(head@) + "\n"@,
        r.log_head@ == "0000000000000000000000000000000000000000 "@ + hex_of(head@) + " "@ + name@ + " <"@
            + email@ + "> "@ + signed_decimal(now as int) + " +0000\tworktree: created from "@ + branch@ + "\n"@,
        r.dot_git@ == "gitdir: "@ + admin@ + "\n"@,
{
    let h = head.to_hex();
    let g = crate::text::concat(dest, "/.git");
    let gitdir = crate::text::concat(g.as_str(), "\n");
    let hd = crate::text::concat("ref: refs/heads/", branch);
    let head_file = crate::text::concat(hd.as_str(), "\n");
    let orig_head = crate::text::concat(h.as_str(), "\n");
    let a = crate::text::concat("0000000000000000000000000000000000000000 ", h.as_str());
    let b = crate::text::concat(a.as_str(), " ");
    let c = crate::text::concat(b.as_str(), name);
    let d = crate::text::concat(c.as_str(), " <");
    let e = crate::text::concat(d.as_str(), email);
    let f = crate::text::concat(e.as_str(), "> ");
    let t = signed_string(now);
    let g2 = crate::text::concat(f.as_str(), t.as_str());
    let h2 = crate::text::concat(g2.as_str(), " +0000\tworktree: created from ");
    let i = crate::text::concat(h2.as_str(), branch);
    let log_head = crate::text::concat(i.as_str(), "\n");
    let dg = crate::text::concat("gitdir: ", admin);
    let dot_git = crate::text::concat(dg.as_str(), "\n");
    Layout { commondir: crate::text::owned("../..\n"), gitdir, head: head_file, orig_head, log_head, dot_git }
}

/// The refusal when another worktree already stands on the branch.
pub fn held_elsewhere(branch: &str, path: &str) -> (e: Error)
    ensures
        refusal(
            e,
            "branch/checked-out-elsewhere"@,
            "'"@ + branch@ + "' is already used by worktree at '"@ + path@ + "'"@,
            seq!["git worktree list"@],
        ),
{
    let a = crate::text::concat("'", branch);
    let b = crate::text::concat(a.as_str(), "' is already used by worktree at '");
    let c = crate::text::concat(b.as_str(), path);
    let m = crate::text::concat(c.as_str(), "'");
    let mut v: Vec<String> = Vec::new();
    v.push(crate::text::owned("git worktree list"));
    proof {
        assert(string_views(v@) =~= seq!["git worktree list"@]);
    }
    Error::coded("branch/checked-out-elsewhere", m.as_str(), v)
}

/// The refusal when the repository has nothing to check out.
pub fn unborn_refusal() -> (e: Error)
    ensures
        refusal(
            e,
            "worktree/unborn"@,
            "this repository has no commits yet, so there is nothing to check out"@,
            seq!["ff commit -m <message>"@],
        ),
{
    let mut v: Vec<String> = Vec::new();
    v.push(crate::text::owned("ff commit -m <message>"));
    proof {
        assert(string_views(v@) =~= seq!["ff commit -m <message>"@]);
    }
    Error::coded("worktree/unborn", "this repository has no commits yet, so there is nothing to check out", v)
}

/// The branch a new worktree stands on, and whether it is created for it:
/// a named branch that exists is used as it is; a name that does not is
/// checked and created; with no name, the destination's directory name
/// (`candidate`) when it would stand as a branch and none has it
/// (`candidate_taken`), and a minted name otherwise.
pub fn worktree_branch(
    named: Option<&str>,
    named_exists: bool,
    candidate: Option<&str>,
    candidate_taken: bool,
    minted: &str,
) -> (r: Result<(String, bool)>)
    ensures
        match named {
            Some(n) => if named_exists {
                r matches Ok(p) && p.0@ == n@ && !p.1
            } else if crate::branch::gix_ref_name_error("refs/heads/"@ + n@) is Some {
                r is Err
            } else {
                r matches Ok(p) && p.0@ == n@ && p.1
            },
            None => match candidate {
                Some(c) => if crate::branch::gix_ref_name_error("refs/heads/"@ + c@) is None && !candidate_taken {
                    r matches Ok(p) && p.0@ == c@ && p.1
                } else {
                    r matches Ok(p) && p.0@ == minted@ && p.1
                },
                None => r matches Ok(p) && p.0@ == minted@ && p.1,
            },
        },
{
    match named {
        Some(n) => {
            if named_exists {
                return Ok((crate::text::owned(n), false));
            }
            match crate::branch::validate_name(n) {
                Ok(()) => Ok((crate::text::owned(n), true)),
                Err(e) => Err(e),
            }
        },
        None => {
            let usable = match candidate {
                Some(c) => crate::branch::validate_name(c).is_ok() && !candidate_taken,
                None => false,
            };
            match candidate {
                Some(c) => {
                    if usable {
                        Ok((crate::text::owned(c), true))
                    } else {
                        Ok((crate::text::owned(minted), true))
                    }
                },
                None => Ok((crate::text::owned(minted), true)),
            }
        },
    }
}

/// The summary of adding a worktree.
pub fn add_summary(id: &str, branch: &str) -> (r: String)
    ensures
        r@ == "add worktree "@ + id@ + " on "@ + branch@,
{
    let a = crate::text::concat("add worktree ", id);
    let b = crate::text::concat(a.as_str(), " on ");
    crate::text::concat(b.as_str(), branch)
}

} // verus!
