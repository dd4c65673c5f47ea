//! `ff describe`: edit the pending description, what the open change will
//! say when it closes, or reword a closed commit and restack what sits on
//! top of it. Here are the verb's decisions: the branch a description
//! belongs to, the text kept, the reword's message and subject, and the
//! record, ref table, pins and report a reword writes.

use vstd::prelude::*;
use crate::cascade::walk::{Rewrite, rewritten};
use crate::close::{normalized, subject_spec};
use crate::done::{moved_besides, short_ref};
use crate::error::{Error, Result};
use crate::fold::refusal;
use crate::journal::{DescriptionTransition, RefTransition, RefsTable};
use crate::model::{DescribeReport, HeadState, RewordReport};
use crate::oid::Oid;
use crate::text::{string_views, trimmed_end, opt_view};

verus! {

fn exits1(a: &str) -> (v: Vec<String>)
    ensures
        string_views(v@) == seq![a@],
{
    let mut v: Vec<String> = Vec::new();
    v.push(crate::text::owned(a));
    proof {
        assert(string_views(v@) =~= seq![a@]);
    }
    v
}

/// The branch a pending description belongs to: the branch HEAD stands on,
/// born or not. A detached HEAD has no change to describe.
pub fn describe_branch(head: &HeadState) -> (r: Result<String>)
    ensures
        match *head {
            HeadState::Branch { name, .. } => r == Ok::<String, Error>(name),
            HeadState::Unborn { ref_name } => r matches Ok(b) && b@ == short_ref(ref_name@),
            HeadState::Detached { .. } => r matches Err(e) && refusal(
                e,
                "repo/detached"@,
                "detached HEAD: there is no change to describe"@,
                seq!["ff switch <branch>"@],
            ),
        },
{
    match head {
        HeadState::Branch { name, .. } => Ok(name.clone()),
        HeadState::Unborn { ref_name } => match crate::text::strip_prefix(ref_name.as_str(), "refs/heads/") {
            Some(b) => Ok(b),
            None => Ok(ref_name.clone()),
        },
        HeadState::Detached { .. } => Err(
            Error::coded("repo/detached", "detached HEAD: there is no change to describe", exits1("ff switch <branch>")),
        ),
    }
}

/// The description kept: the text without trailing whitespace, and none
/// when that leaves nothing.
pub open spec fn kept_text(text: Option<Seq<char>>) -> Option<Seq<char>> {
    match text {
        Some(t) => if trimmed_end(t).len() > 0 { Some(trimmed_end(t)) } else { None },
        None => None,
    }
}

/// The pending description as it will be stored.
pub fn pending_text(text: Option<String>) -> (r: Option<String>)
    ensures
        opt_view(r) == kept_text(opt_view(text)),
{
    match text {
        Some(t) => {
            let v = crate::text::trim_end_chars(&crate::text::chars_of(t.as_str()));
            if v.len() > 0 {
                Some(crate::text::string_of(&v))
            } else {
                None
            }
        },
        None => None,
    }
}

fn opt_eq(a: &Option<String>, b: &Option<String>) -> (r: bool)
    ensures
        r == (opt_view(*a) == opt_view(*b)),
{
    match (a, b) {
        (Some(x), Some(y)) => crate::text::str_eq(x.as_str(), y.as_str()),
        (None, None) => true,
        _ => false,
    }
}

/// What setting the pending description comes to: `None` when the text is
/// the one already pending, and nothing is written; otherwise the
/// operation's summary and the description's transition.
pub fn pending_change(branch: &str, old: Option<String>, text: Option<String>) -> (r: Option<(String, DescriptionTransition)>)
    ensures
        r is None <==> opt_view(old) == opt_view(text),
        r matches Some(c) ==> {
            &&& c.0@ == if text is Some {
                "describe pending change on "@ + branch@
            } else {
                "clear pending description on "@ + branch@
            }
            &&& c.1.branch@ == branch@
            &&& c.1.old == old
            &&& c.1.new == text
        },
{
    if opt_eq(&old, &text) {
        return None;
    }
    let summary = if text.is_some() {
        crate::text::concat("describe pending change on ", branch)
    } else {
        crate::text::concat("clear pending description on ", branch)
    };
    Some((summary, DescriptionTransition { branch: crate::text::owned(branch), old, new: text }))
}

/// The report of setting a pending description.
pub fn describe_report(branch: String, old: Option<String>, new: Option<String>) -> (r: DescribeReport)
    ensures
        r.branch == branch,
        r.old == old,
        r.new == new,
{
    DescribeReport { branch, old, new }
}

/// A reword's message and the subject it lands with: the message cleaned
/// up; an empty one is refused.
pub fn reword_message(message: &str) -> (r: Result<(String, String)>)
    ensures
        normalized(message@).len() == 0 ==> (r matches Err(e) && refusal(
            e,
            "usage/needs-message"@,
            "a reworded commit needs a description"@,
            seq!["ff describe <rev> -m <msg>"@],
        )),
        normalized(message@).len() > 0 ==> (r matches Ok(p) && p.0@ == normalized(message@) && p.1@
            == subject_spec(normalized(message@))),
{
    let n = crate::close::normalize_message(message);
    if n.unicode_len() == 0 {
        return Err(
            Error::coded("usage/needs-message", "a reworded commit needs a description", exits1("ff describe <rev> -m <msg>")),
        );
    }
    let subject = crate::close::subject_of(n.as_str());
    Ok((n, subject))
}

/// The branch a reword runs on and its tip: HEAD's. Nothing committed, or
/// a detached HEAD, has no branch to carry the rewrite.
pub fn reword_branch(head: &HeadState) -> (r: Result<(String, String)>)
    ensures
        match *head {
            HeadState::Branch { name, commit, .. } => r == Ok::<(String, String), Error>((name, commit)),
            HeadState::Unborn { .. } => r matches Err(e) && refusal(
                e,
                "target/unresolvable"@,
                "nothing is committed yet: there is no revision to reword"@,
                seq!["ff commit -m <msg>"@],
            ),
            HeadState::Detached { .. } => r matches Err(e) && refusal(
                e,
                "repo/detached"@,
                "detached HEAD: there is no branch to carry the rewrite"@,
                seq!["ff switch <branch>"@],
            ),
        },
{
    match head {
        HeadState::Branch { name, commit, .. } => Ok((name.clone(), commit.clone())),
        HeadState::Unborn { .. } => Err(
            Error::coded(
                "target/unresolvable",
                "nothing is committed yet: there is no revision to reword",
                exits1("ff commit -m <msg>"),
            ),
        ),
        HeadState::Detached { .. } => Err(
            Error::coded("repo/detached", "detached HEAD: there is no branch to carry the rewrite", exits1("ff switch <branch>")),
        ),
    }
}

/// The summary of a reword's operation.
pub fn reword_summary(target_short: &str, branch: &str, subject: &str) -> (r: String)
    ensures
        r@ == "reword "@ + target_short@ + " on "@ + branch@ + ": "@ + subject@,
{
    let a = crate::text::concat("reword ", target_short);
    let b = crate::text::concat(a.as_str(), " on ");
    let c = crate::text::concat(b.as_str(), branch);
    let d = crate::text::concat(c.as_str(), ": ");
    crate::text::concat(d.as_str(), subject)
}

/// The reflog message of the heads a reword moves.
pub fn reword_reflog(target_short: &str) -> (r: String)
    ensures
        r@ == "describe: reword "@ + target_short@,
{
    crate::text::concat("describe: reword ", target_short)
}

/// The post-reword world a reword records as planned: each carried head at
/// its new tip, HEAD where it was.
pub fn plan_reword_table(table: &mut RefsTable, carried: &Vec<RefTransition>)
    requires
        old(table).wf(),
    ensures
        final(table).wf(),
        final(table).head == old(table).head,
        final(table).map() == crate::fold::carried_over(old(table).map(), carried@),
{
    let ghost m0 = table.map();
    let ghost h0 = table.head;
    let mut k: usize = 0;
    while k < carried.len()
        invariant
            k <= carried@.len(),
            table.wf(),
            table.head == h0,
            table.map() == crate::fold::carried_over(m0, carried@.take(k as int)),
        decreases carried.len() - k,
    {
        proof {
            assert(carried@.take(k + 1).drop_last() =~= carried@.take(k as int));
            assert(carried@.take(k + 1).last() == carried@[k as int]);
        }
        match &carried[k].new {
            Some(n) => {
                table.insert(carried[k].name.as_str(), n.as_str());
            },
            None => {},
        }
        k += 1;
    }
    proof {
        assert(carried@.take(carried@.len() as int) =~= carried@);
    }
}

/// What a reword keeps reachable: every rewritten commit and the tip it
/// started from.
pub fn reword_pins(rewrites: &Vec<Rewrite>, tip: Oid) -> (r: Vec<Oid>)
    ensures
        r@ == rewritten(rewrites@).push(tip),
{
    let mut r: Vec<Oid> = Vec::new();
    let mut k: usize = 0;
    while k < rewrites.len()
        invariant
            k <= rewrites@.len(),
            r@ == rewritten(rewrites@.take(k as int)),
        decreases rewrites.len() - k,
    {
        r.push(rewrites[k].new);
        proof {
            assert(rewritten(rewrites@.take(k + 1)) =~= rewritten(rewrites@.take(k as int)).push(rewrites@[k as int].new));
        }
        k += 1;
    }
    proof {
        assert(rewrites@.take(rewrites@.len() as int) =~= rewrites@);
    }
    r.push(tip);
    r
}

/// A reword that changed nothing: the commit keeps its id, nothing is
/// restacked, and nothing is written.
pub fn unchanged_reword(branch: String, target: &Oid, subject: String) -> (r: RewordReport)
    ensures
        r.branch == branch,
        r.old@ == crate::hex::hex_of(target@),
        r.new@ == crate::hex::hex_of(target@),
        r.subject == subject,
        r.restacked == 0,
        r.moved@.len() == 0,
        r.published == 0,
{
    RewordReport {
        branch,
        old: target.to_hex(),
        new: target.to_hex(),
        subject,
        restacked: 0,
        moved: Vec::new(),
        published: 0,
    }
}

/// The report of a reword that landed: the target's new id is the first
/// rewrite's (the target comes first, oldest first), everything after it
/// was restacked, and the other heads carried are named.
pub fn reword_report(
    branch: String,
    target: &Oid,
    subject: String,
    rewrites: &Vec<Rewrite>,
    carried: &Vec<RefTransition>,
    published: usize,
) -> (r: RewordReport)
    requires
        rewrites@.len() > 0,
    ensures
        r.branch == branch,
        r.old@ == crate::hex::hex_of(target@),
        r.new@ == crate::hex::hex_of(rewrites@[0].new@),
        r.subject == subject,
        r.restacked == rewrites@.len() - 1,
        string_views(r.moved@) == moved_besides(carried@, "refs/heads/"@ + branch@),
        r.published == published,
{
    let branch_ref = crate::branch::heads_ref(branch.as_str());
    let moved = crate::done::moved_branches(carried, branch_ref.as_str());
    RewordReport {
        branch,
        old: target.to_hex(),
        new: rewrites[0].new.to_hex(),
        subject,
        restacked: rewrites.len() - 1,
        moved,
        published,
    }
}

/// How many of a rewrite's old commits the branch's remote-tracking ref
/// already holds: `published[i]` says whether the remote tip's merge bases
/// with rewrite `i`'s old commit include that commit. Disclosure, not a
/// guard.
pub fn published_count(published: &Vec<bool>) -> (n: usize)
    ensures
        n == published@.filter(|b: bool| b).len(),
{
    let mut n: usize = 0;
    let mut k: usize = 0;
    while k < published.len()
        invariant
            k <= published@.len(),
            n == published@.take(k as int).filter(|b: bool| b).len(),
            n <= k,
        decreases published.len() - k,
    {
        proof {
            assert(published@.take(k + 1) =~= published@.take(k as int).push(published@[k as int]));
            published@.take(k as int).lemma_filter_push(published@[k as int], |b: bool| b);
        }
        if published[k] {
            n += 1;
        }
        k += 1;
    }
    proof {
        assert(published@.take(published@.len() as int) =~= published@);
    }
    n
}

} // verus!
