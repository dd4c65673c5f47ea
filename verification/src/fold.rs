//! `ff fold` lands the branch you are standing on into another one: its
//! commits replay onto the target's tip, the target advances to the result,
//! the branch is taken away, and this worktree moves to the target with the
//! open change still open. `--stay` advances the target where it is held
//! and keeps the source at the new tip, sitting on the target.
//!
//! Here are the fold's decisions, in the order the verb takes them: the
//! guards that refuse it, the cascade's holds and report re-pointed from the
//! source to the target, the ref transitions and the ref tables its
//! operations record, and the words its records say.

use vstd::prelude::*;
use crate::cascade::walk::{CascadePlan, CascadeMove, CascadeHold, CascadeSkip};
use crate::close::{join_paths, joined_paths};
use crate::error::{Error, Result};
use crate::held::{HeldTransition, Intent};
use crate::hex::hex_of;
use crate::journal::{RefTransition, RefsTable};
use crate::guard::{Finish, bare_refusal, finish_text, mid_operation, op_name};
use crate::held::already_held;
use crate::model::{HeadState, InProgress};
use crate::oid::Oid;
use crate::text::{decimal, string_views};

verus! {

fn exits1(a: &str) -> (v: Vec<String>)
    ensures
        string_views(v@) == seq![a@],
{
    let mut v: Vec<String> = Vec::new();
    v.push(crate::text::owned(a));
    proof {
        assert(string_views(v@) =~= seq![a@]);
    }
    v
}

fn exits2(a: &str, b: &str) -> (v: Vec<String>)
    ensures
        string_views(v@) == seq![a@, b@],
{
    let mut v: Vec<String> = Vec::new();
    v.push(crate::text::owned(a));
    v.push(crate::text::owned(b));
    proof {
        assert(string_views(v@) =~= seq![a@, b@]);
    }
    v
}

fn exits3(a: &str, b: &str, c: &str) -> (v: Vec<String>)
    ensures
        string_views(v@) == seq![a@, b@, c@],
{
    let mut v: Vec<String> = Vec::new();
    v.push(crate::text::owned(a));
    v.push(crate::text::owned(b));
    v.push(crate::text::owned(c));
    proof {
        assert(string_views(v@) =~= seq![a@, b@, c@]);
    }
    v
}

/// Whether an error is the coded refusal with this id, message and exits.
pub open spec fn refusal(e: Error, id: Seq<char>, message: Seq<char>, exits: Seq<Seq<char>>) -> bool {
    e matches Error::Coded { id: i, message: m, exits: x } && i@ == id && m@ == message
        && string_views(x@) == exits
}

/// The source of a fold: the branch HEAD stands on, with its tip. Nothing
/// committed yet, or a detached HEAD, has no branch to fold.
pub fn fold_source(head: &HeadState) -> (r: Result<(String, String)>)
    ensures
        match *head {
            HeadState::Branch { name, commit, .. } => r == Ok::<(String, String), Error>((name, commit)),
            HeadState::Unborn { .. } => r matches Err(e) && refusal(
                e,
                "target/unresolvable"@,
                "nothing is committed yet: there is nothing to fold"@,
                seq!["ff commit -m <msg>"@],
            ),
            HeadState::Detached { .. } => r matches Err(e) && refusal(
                e,
                "repo/detached"@,
                "detached HEAD: stand on the branch to fold"@,
                seq!["ff switch <branch>"@],
            ),
        },
{
    match head {
        HeadState::Branch { name, commit, .. } => Ok((name.clone(), commit.clone())),
        HeadState::Unborn { .. } => Err(
            Error::coded(
                "target/unresolvable",
                "nothing is committed yet: there is nothing to fold",
                exits1("ff commit -m <msg>"),
            ),
        ),
        HeadState::Detached { .. } => Err(
            Error::coded(
                "repo/detached",
                "detached HEAD: stand on the branch to fold",
                exits1("ff switch <branch>"),
            ),
        ),
    }
}

/// Trunk is what everything lands on, and lands on nothing: a source that
/// is trunk (`trunk` is trunk's name, when it resolves) is refused.
pub fn trunk_refusal(source: &str, trunk: Option<&str>) -> (r: Option<Error>)
    ensures
        r is Some <==> (trunk matches Some(t) && t@ == source@),
        r matches Some(e) ==> refusal(
            e,
            "fold/trunk-source"@,
            source@ + " is trunk: it is what branches fold into, and folds into nothing"@,
            seq!["ff switch <branch>"@, "ff status"@],
        ),
{
    match trunk {
        Some(t) => {
            if crate::text::str_eq(t, source) {
                let m = crate::text::concat(source, " is trunk: it is what branches fold into, and folds into nothing");
                Some(Error::coded("fold/trunk-source", m.as_str(), exits2("ff switch <branch>", "ff status")))
            } else {
                None
            }
        },
        None => None,
    }
}

/// An editing session is not folded: it would land the commit being
/// edited.
pub fn source_session_refusal(source: &str, session: bool) -> (r: Option<Error>)
    ensures
        r is Some <==> session,
        r matches Some(e) ==> refusal(
            e,
            "session/open"@,
            source@ + " is an editing session: folding it would land the commit being edited"@,
            seq!["ff done"@, "ff done --abandon"@],
        ),
{
    if session {
        let m = crate::text::concat(source, " is an editing session: folding it would land the commit being edited");
        Some(Error::coded("session/open", m.as_str(), exits2("ff done", "ff done --abandon")))
    } else {
        None
    }
}

/// A branch whose hold has a resolution open (`session` names the session
/// branch, empty for a resolution recorded before sessions) is worked on
/// elsewhere: the way to it is a switch.
pub fn resolving_refusal(branch: &str, session: Option<&str>) -> (r: Option<Error>)
    ensures
        r is Some <==> session is Some,
        session matches Some(s) ==> if s@.len() == 0 {
            r matches Some(e) && refusal(
                e,
                "held/expired"@,
                "the resolution on "@ + branch@
                    + " predates session branches: its markers are in your working copy"@,
                seq!["ff resolve --abandon"@, "ff restore <path>"@],
            )
        } else {
            r matches Some(e) && refusal(
                e,
                "held/resolving"@,
                "a resolution of "@ + branch@ + " is open on "@ + s@,
                seq!["ff switch "@ + s@, "ff resolve --abandon"@, "ff status"@],
            )
        },
{
    match session {
        Some(s) => {
            if s.unicode_len() == 0 {
                Some(crate::held::predates_sessions(branch))
            } else {
                let a = crate::text::concat("a resolution of ", branch);
                let b = crate::text::concat(a.as_str(), " is open on ");
                let m = crate::text::concat(b.as_str(), s);
                let sw = crate::text::concat("ff switch ", s);
                Some(Error::coded("held/resolving", m.as_str(), exits3(sw.as_str(), "ff resolve --abandon", "ff status")))
            }
        },
        None => None,
    }
}

/// The target, as it resolved (`full` its full ref, `name` its short name):
/// never the source itself, and only a local branch.
pub fn target_refusal(source: &str, full: &str, name: &str) -> (r: Option<Error>)
    ensures
        full@ == "refs/heads/"@ + source@ ==> (r matches Some(e) && refusal(
            e,
            "usage/fold-into-self"@,
            source@ + " cannot be folded into itself"@,
            seq!["ff fold <branch>"@, "ff branch"@],
        )),
        full@ != "refs/heads/"@ + source@ && !"refs/heads/"@.is_prefix_of(full@) ==> (r matches Some(e)
            && refusal(
            e,
            "fold/remote-target"@,
            name@ + " lives on a remote: fold lands into a local branch only"@,
            seq!["ff start "@ + name@, "ff branch"@, "ff push"@],
        )),
        full@ != "refs/heads/"@ + source@ && "refs/heads/"@.is_prefix_of(full@) ==> r is None,
{
    let own = crate::branch::heads_ref(source);
    if crate::text::str_eq(full, own.as_str()) {
        let m = crate::text::concat(source, " cannot be folded into itself");
        return Some(Error::coded("usage/fold-into-self", m.as_str(), exits2("ff fold <branch>", "ff branch")));
    }
    if !crate::text::str_starts_with(full, "refs/heads/") {
        let m = crate::text::concat(name, " lives on a remote: fold lands into a local branch only");
        let st = crate::text::concat("ff start ", name);
        return Some(Error::coded("fold/remote-target", m.as_str(), exits3(st.as_str(), "ff branch", "ff push")));
    }
    None
}

/// Another worktree standing on the target (`holder` its path) is refused
/// unless `--stay` says to advance the target there.
pub fn holder_refusal(target: &str, holder: Option<&str>, stay: bool) -> (r: Option<Error>)
    ensures
        r is Some <==> (holder is Some && !stay),
        r matches Some(e) ==> refusal(
            e,
            "branch/checked-out-elsewhere"@,
            "'"@ + target@ + "' is already used by worktree at '"@ + holder->0@ + "'"@,
            seq!["ff fold "@ + target@ + " --stay"@, "ff worktree"@],
        ),
{
    match holder {
        Some(path) => {
            if stay {
                None
            } else {
                let a = crate::text::concat("'", target);
                let b = crate::text::concat(a.as_str(), "' is already used by worktree at '");
                let c = crate::text::concat(b.as_str(), path);
                let m = crate::text::concat(c.as_str(), "'");
                let f = crate::text::concat("ff fold ", target);
                let g = crate::text::concat(f.as_str(), " --stay");
                Some(Error::coded("branch/checked-out-elsewhere", m.as_str(), exits2(g.as_str(), "ff worktree")))
            }
        },
        None => None,
    }
}

/// Nothing folds into an editing session.
pub fn target_session_refusal(target: &str, session: bool) -> (r: Option<Error>)
    ensures
        r is Some <==> session,
        r matches Some(e) ==> refusal(
            e,
            "session/open"@,
            target@ + " is an editing session: nothing folds into one"@,
            seq!["ff done"@, "ff done --abandon"@],
        ),
{
    if session {
        let m = crate::text::concat(target, " is an editing session: nothing folds into one");
        Some(Error::coded("session/open", m.as_str(), exits2("ff done", "ff done --abandon")))
    } else {
        None
    }
}

/// A replay that would conflict is a refusal, not a hold: `where_held`
/// names the place it stopped, `paths` the conflicting paths.
pub fn conflict_refusal(source: &str, target: &str, where_held: &str, paths: &Vec<String>) -> (e: Error)
    ensures
        refusal(
            e,
            "fold/conflict"@,
            source@ + " would conflict with "@ + target@ + " at "@ + where_held@ + " ("@
                + joined_paths(string_views(paths@)) + "); nothing was folded"@,
            seq!["ff restack --onto "@ + target@, "ff status"@],
        ),
{
    let a = crate::text::concat(source, " would conflict with ");
    let b = crate::text::concat(a.as_str(), target);
    let c = crate::text::concat(b.as_str(), " at ");
    let d = crate::text::concat(c.as_str(), where_held);
    let f = crate::text::concat(d.as_str(), " (");
    let j = join_paths(paths);
    let g = crate::text::concat(f.as_str(), j.as_str());
    let m = crate::text::concat(g.as_str(), "); nothing was folded");
    let r = crate::text::concat("ff restack --onto ", target);
    Error::coded("fold/conflict", m.as_str(), exits2(r.as_str(), "ff status"))
}


/// A base name as the fold leaves it: the source's name becomes the
/// target's, since the source is going away.
pub open spec fn repointed(n: Seq<char>, source: Seq<char>, target: Seq<char>) -> Seq<char> {
    if n == source { target } else { n }
}

/// A move entry, its base re-pointed.
pub open spec fn move_repointed(a: CascadeMove, b: CascadeMove, source: Seq<char>, target: Seq<char>) -> bool {
    &&& b.base@ == repointed(a.base@, source, target)
    &&& b.branch == a.branch && b.old_tip == a.old_tip && b.new_tip == a.new_tip
    &&& b.replayed == a.replayed && b.dropped == a.dropped && b.diverged == a.diverged
    &&& b.published == a.published && b.published_on == a.published_on
}

/// A hold entry, its base re-pointed.
pub open spec fn hold_repointed(a: CascadeHold, b: CascadeHold, source: Seq<char>, target: Seq<char>) -> bool {
    &&& b.base@ == repointed(a.base@, source, target)
    &&& b.branch == a.branch && b.report == a.report && b.left_alone == a.left_alone
}

/// A skip entry, its base re-pointed.
pub open spec fn skip_repointed(a: CascadeSkip, b: CascadeSkip, source: Seq<char>, target: Seq<char>) -> bool {
    &&& b.base@ == repointed(a.base@, source, target)
    &&& b.branch == a.branch && b.reason == a.reason && b.left_alone == a.left_alone
}

/// A hold transition, a restack onto the source re-aimed at the target.
pub open spec fn held_repointed(a: HeldTransition, b: HeldTransition, source: Seq<char>, target: Seq<char>) -> bool {
    &&& b.branch == a.branch
    &&& b.old == a.old
    &&& match a.new {
        Some(h) => match h.intent {
            Intent::Restack { branch, onto } => if onto@ == "refs/heads/"@ + source {
                b.new matches Some(g) && g.intent matches Intent::Restack { branch: gb, onto: go }
                    && gb == branch && go@ == "refs/heads/"@ + target && g.at == h.at && g.paths == h.paths
                    && g.time == h.time
            } else {
                b.new == a.new
            },
            _ => b.new == a.new,
        },
        None => b.new is None,
    }
}

/// The cascade a fold rides, with every hold and every report line that
/// names the source as a base naming the target instead: the branches above
/// sat on a branch that is going away, so `ff resolve` on a held child
/// replans onto one that exists.
pub fn repoint_cascade(plan: CascadePlan, source: &str, target: &str) -> (r: CascadePlan)
    ensures
        r.carried == plan.carried,
        r.rewrites == plan.rewrites,
        r.dropped == plan.dropped,
        r.pins == plan.pins,
        r.head == plan.head,
        r.report.unchanged == plan.report.unchanged,
        r.holds@.len() == plan.holds@.len(),
        forall|i: int| 0 <= i < r.holds@.len() ==> held_repointed(plan.holds@[i], #[trigger] r.holds@[i], source@, target@),
        r.report.moved@.len() == plan.report.moved@.len(),
        forall|i: int| 0 <= i < r.report.moved@.len() ==> move_repointed(plan.report.moved@[i], #[trigger] r.report.moved@[i], source@, target@),
        r.report.held@.len() == plan.report.held@.len(),
        forall|i: int| 0 <= i < r.report.held@.len() ==> hold_repointed(plan.report.held@[i], #[trigger] r.report.held@[i], source@, target@),
        r.report.skipped@.len() == plan.report.skipped@.len(),
        forall|i: int| 0 <= i < r.report.skipped@.len() ==> skip_repointed(plan.report.skipped@[i], #[trigger] r.report.skipped@[i], source@, target@),
{
    let CascadePlan { report, carried, rewrites, dropped, holds, pins, head } = plan;
    let source_ref = crate::branch::heads_ref(source);
    let target_ref = crate::branch::heads_ref(target);
    let ghost h0 = holds@;
    let mut rest = holds;
    let mut new_holds: Vec<HeldTransition> = Vec::new();
    let mut k: usize = 0;
    let count: usize = rest.len();
    while rest.len() > 0
        invariant
            k <= h0.len(),
            h0.len() == count,
            rest@ == h0.skip(k as int),
            new_holds@.len() == k,
            source_ref@ == "refs/heads/"@ + source@,
            target_ref@ == "refs/heads/"@ + target@,
            forall|i: int| 0 <= i < k ==> held_repointed(h0[i], #[trigger] new_holds@[i], source@, target@),
        decreases rest.len(),
    {
        proof {
            assert(k < h0.len());
            assert(h0.skip(k as int)[0] == h0[k as int]);
        }
        let t = rest.remove(0);
        proof {
            assert(rest@ =~= h0.skip(k + 1));
        }
        let HeldTransition { branch, old, new } = t;
        let new = match new {
            Some(h) => {
                let crate::held::Held { intent, at, paths, time } = h;
                let intent = match intent {
                    Intent::Restack { branch: b, onto } => {
                        if crate::text::str_eq(onto.as_str(), source_ref.as_str()) {
                            Intent::Restack { branch: b, onto: target_ref.clone() }
                        } else {
                            Intent::Restack { branch: b, onto }
                        }
                    },
                    other => other,
                };
                Some(crate::held::Held { intent, at, paths, time })
            },
            None => None,
        };
        new_holds.push(HeldTransition { branch, old, new });
        k += 1;
    }
    let crate::cascade::walk::Cascade { moved, held, skipped, unchanged } = report;
    let ghost m0 = moved@;
    let mut rest = moved;
    let mut new_moved: Vec<CascadeMove> = Vec::new();
    let mut k: usize = 0;
    let count: usize = rest.len();
    while rest.len() > 0
        invariant
            k <= m0.len(),
            m0.len() == count,
            rest@ == m0.skip(k as int),
            new_moved@.len() == k,
            forall|i: int| 0 <= i < k ==> move_repointed(m0[i], #[trigger] new_moved@[i], source@, target@),
        decreases rest.len(),
    {
        proof {
            assert(k < m0.len());
            assert(m0.skip(k as int)[0] == m0[k as int]);
        }
        let mut e = rest.remove(0);
        proof {
            assert(rest@ =~= m0.skip(k + 1));
        }
        if crate::text::str_eq(e.base.as_str(), source) {
            e.base = crate::text::owned(target);
        }
        new_moved.push(e);
        k += 1;
    }
    let ghost g0 = held@;
    let mut rest = held;
    let mut new_held: Vec<CascadeHold> = Vec::new();
    let mut k: usize = 0;
    let count: usize = rest.len();
    while rest.len() > 0
        invariant
            k <= g0.len(),
            g0.len() == count,
            rest@ == g0.skip(k as int),
            new_held@.len() == k,
            forall|i: int| 0 <= i < k ==> hold_repointed(g0[i], #[trigger] new_held@[i], source@, target@),
        decreases rest.len(),
    {
        proof {
            assert(k < g0.len());
            assert(g0.skip(k as int)[0] == g0[k as int]);
        }
        let mut e = rest.remove(0);
        proof {
            assert(rest@ =~= g0.skip(k + 1));
        }
        if crate::text::str_eq(e.base.as_str(), source) {
            e.base = crate::text::owned(target);
        }
        new_held.push(e);
        k += 1;
    }
    let ghost s0 = skipped@;
    let mut rest = skipped;
    let mut new_skipped: Vec<CascadeSkip> = Vec::new();
    let mut k: usize = 0;
    let count: usize = rest.len();
    while rest.len() > 0
        invariant
            k <= s0.len(),
            s0.len() == count,
            rest@ == s0.skip(k as int),
            new_skipped@.len() == k,
            forall|i: int| 0 <= i < k ==> skip_repointed(s0[i], #[trigger] new_skipped@[i], source@, target@),
        decreases rest.len(),
    {
        proof {
            assert(k < s0.len());
            assert(s0.skip(k as int)[0] == s0[k as int]);
        }
        let mut e = rest.remove(0);
        proof {
            assert(rest@ =~= s0.skip(k + 1));
        }
        if crate::text::str_eq(e.base.as_str(), source) {
            e.base = crate::text::owned(target);
        }
        new_skipped.push(e);
        k += 1;
    }
    CascadePlan {
        report: crate::cascade::walk::Cascade { moved: new_moved, held: new_held, skipped: new_skipped, unchanged },
        carried,
        rewrites,
        dropped,
        holds: new_holds,
        pins,
        head,
    }
}

/// A ref's move from `old` to `new`, when it moves at all.
pub open spec fn move_of(name: Seq<char>, old: Oid, new: Oid, t: Option<RefTransition>) -> bool {
    if old@ == new@ {
        t is None
    } else {
        t matches Some(x) && x.name@ == name && (x.old matches Some(o) && o@ == hex_of(old@))
            && (x.new matches Some(n) && n@ == hex_of(new@))
    }
}

/// The transition of branch `name` from `old` to `new`, absent when it
/// stands still: the target's advance, or the source's move under
/// `--stay`.
pub fn branch_transition(name: &str, old: &Oid, new: &Oid) -> (t: Option<RefTransition>)
    ensures
        move_of("refs/heads/"@ + name@, *old, *new, t),
{
    if old.same(new) {
        None
    } else {
        Some(RefTransition { name: crate::branch::heads_ref(name), old: Some(old.to_hex()), new: Some(new.to_hex()) })
    }
}

/// What a fold's summary adds for the branches that moved above it.
pub open spec fn suffix_of(moved: nat) -> Seq<char> {
    if moved == 0 { Seq::empty() } else { ", and "@ + decimal(moved) + " above it"@ }
}

/// `, and <n> above it` when the cascade moved `n` branches, else nothing.
pub fn summary_suffix(moved: usize) -> (r: String)
    ensures
        r@ == suffix_of(moved as nat),
{
    if moved == 0 {
        proof {
            reveal_strlit("");
        }
        crate::text::owned("")
    } else {
        let n = crate::text::decimal_string(moved as u64);
        let a = crate::text::concat(", and ", n.as_str());
        crate::text::concat(a.as_str(), " above it")
    }
}

/// The summary of the fold's operation: `fold <source> into <target>`,
/// naming the worktree the target advanced in when `--stay` advanced it
/// there, with the cascade's suffix.
pub fn fold_summary(source: &str, target: &str, held_in: Option<&str>, moved: usize) -> (r: String)
    ensures
        r@ == "fold "@ + source@ + " into "@ + target@ + match held_in {
            Some(p) => " (in "@ + p@ + ")"@,
            None => Seq::<char>::empty(),
        } + suffix_of(moved as nat),
{
    let a = crate::text::concat("fold ", source);
    let b = crate::text::concat(a.as_str(), " into ");
    let c = crate::text::concat(b.as_str(), target);
    let d = match held_in {
        Some(p) => {
            let x = crate::text::concat(c.as_str(), " (in ");
            let y = crate::text::concat(x.as_str(), p);
            crate::text::concat(y.as_str(), ")")
        },
        None => c,
    };
    let suffix = summary_suffix(moved);
    let r = crate::text::concat(d.as_str(), suffix.as_str());
    proof {
        if held_in is None {
            assert(d@ == c@ + Seq::<char>::empty());
        }
    }
    r
}

/// The summary of the holder's half of `--stay`.
pub fn advanced_summary(target: &str, advanced: usize, source: &str, here: &str) -> (r: String)
    ensures
        r@ == "fold: "@ + target@ + " advanced by "@ + decimal(advanced as nat) + " commit(s) from "@
            + source@ + " in "@ + here@,
{
    let n = crate::text::decimal_string(advanced as u64);
    let a = crate::text::concat("fold: ", target);
    let b = crate::text::concat(a.as_str(), " advanced by ");
    let c = crate::text::concat(b.as_str(), n.as_str());
    let d = crate::text::concat(c.as_str(), " commit(s) from ");
    let e = crate::text::concat(d.as_str(), source);
    let f = crate::text::concat(e.as_str(), " in ");
    crate::text::concat(f.as_str(), here)
}

/// The reflog message every ref the fold moves carries.
pub fn fold_reflog(source: &str, target: &str) -> (r: String)
    ensures
        r@ == "fold: "@ + source@ + " into "@ + target@,
{
    let a = crate::text::concat("fold: ", source);
    let b = crate::text::concat(a.as_str(), " into ");
    crate::text::concat(b.as_str(), target)
}

/// The post-fold world a plain fold records as planned: HEAD on the
/// target, the target at the new tip, the source gone and, when it had one,
/// its parked change gone too.
pub fn plan_fold_table(table: &mut RefsTable, source: &str, target: &str, new_tip: &Oid, parked: bool)
    requires
        old(table).wf(),
    ensures
        final(table).wf(),
        final(table).head@ == "ref:"@ + ("refs/heads/"@ + target@),
        final(table).map() == {
            let m = old(table).map().insert("refs/heads/"@ + target@, hex_of(new_tip@)).remove(
                "refs/heads/"@ + source@,
            );
            if parked { m.remove(crate::linked::PARKED_PREFIX@ + source@) } else { m }
        },
{
    let target_ref = crate::branch::heads_ref(target);
    table.head = crate::text::concat("ref:", target_ref.as_str());
    let tip = new_tip.to_hex();
    table.insert(target_ref.as_str(), tip.as_str());
    let source_ref = crate::branch::heads_ref(source);
    table.remove(source_ref.as_str());
    if parked {
        let parked_ref = crate::text::concat(crate::linked::PARKED_PREFIX, source);
        table.remove(parked_ref.as_str());
    }
}

/// The table `--stay` records on this chain: the source at the new tip when
/// it moves, and the target there too unless another worktree holds it,
/// in which case that worktree's chain records it.
pub fn plan_stay_table(
    table: &mut RefsTable,
    source: &str,
    source_moves: bool,
    target: &str,
    held_elsewhere: bool,
    new_tip: &Oid,
)
    requires
        old(table).wf(),
    ensures
        final(table).wf(),
        final(table).head == old(table).head,
        final(table).map() == {
            let m = if source_moves {
                old(table).map().insert("refs/heads/"@ + source@, hex_of(new_tip@))
            } else {
                old(table).map()
            };
            if held_elsewhere { m } else { m.insert("refs/heads/"@ + target@, hex_of(new_tip@)) }
        },
{
    let tip = new_tip.to_hex();
    if source_moves {
        let s = crate::branch::heads_ref(source);
        table.insert(s.as_str(), tip.as_str());
    }
    if !held_elsewhere {
        let t = crate::branch::heads_ref(target);
        table.insert(t.as_str(), tip.as_str());
    }
}

/// The table the holder's half of `--stay` records: the target at the new
/// tip, and every branch above at its new tip too, since a branch above
/// sits in both worktrees' tables.
pub fn plan_holder_table(table: &mut RefsTable, target: &str, new_tip: &Oid, carried: &Vec<RefTransition>)
    requires
        old(table).wf(),
    ensures
        final(table).wf(),
        final(table).head == old(table).head,
        final(table).map() == carried_over(
            old(table).map().insert("refs/heads/"@ + target@, hex_of(new_tip@)),
            carried@,
        ),
{
    let tip = new_tip.to_hex();
    let t = crate::branch::heads_ref(target);
    table.insert(t.as_str(), tip.as_str());
    let ghost m0 = table.map();
    let mut k: usize = 0;
    while k < carried.len()
        invariant
            k <= carried@.len(),
            table.wf(),
            table.head == old(table).head,
            m0 == old(table).map().insert("refs/heads/"@ + target@, hex_of(new_tip@)),
            table.map() == carried_over(m0, carried@.take(k as int)),
        decreases carried.len() - k,
    {
        proof {
            assert(carried@.take(k + 1).drop_last() =~= carried@.take(k as int));
            assert(carried@.take(k + 1).last() == carried@[k as int]);
        }
        match &carried[k].new {
            Some(n) => {
                table.insert(carried[k].name.as_str(), n.as_str());
            },
            None => {},
        }
        k += 1;
    }
    proof {
        assert(carried@.take(carried@.len() as int) =~= carried@);
    }
}

/// A table with each carried branch written at its new tip, in order.
pub open spec fn carried_over(m: Map<Seq<char>, Seq<char>>, carried: Seq<RefTransition>) -> Map<Seq<char>, Seq<char>>
    decreases carried.len(),
{
    if carried.len() == 0 {
        m
    } else {
        let rest = carried_over(m, carried.drop_last());
        match carried.last().new {
            Some(n) => rest.insert(carried.last().name@, n@),
            None => rest,
        }
    }
}

/// Whether the replay moves this worktree: the open change and the tree it
/// lands as are both planned, or neither is.
pub fn worktree_move(open: Option<Oid>, new_worktree: Option<Oid>) -> (r: Option<(Oid, Oid)>)
    ensures
        r == match (open, new_worktree) {
            (Some(o), Some(n)) => Some((o, n)),
            _ => None::<(Oid, Oid)>,
        },
{
    match (open, new_worktree) {
        (Some(o), Some(n)) => Some((o, n)),
        _ => None,
    }
}

/// Whether a change is still open once the fold lands: the tree the
/// worktree then holds against the new tip's tree, which is the tree the
/// preamble captured when the worktree did not move.
pub fn still_open(new_worktree: Option<Oid>, pre_tree: &Oid, new_tip_tree: &Oid) -> (r: bool)
    ensures
        r == match new_worktree {
            Some(w) => w@ != new_tip_tree@,
            None => pre_tree@ != new_tip_tree@,
        },
{
    match new_worktree {
        Some(w) => !w.same(new_tip_tree),
        None => !pre_tree.same(new_tip_tree),
    }
}


/// The refusal when the worktree `--stay` would advance the target in is
/// busy: its operation log locked, or contended when its preamble ran.
pub fn other_tree_busy(path: &str, locked: bool) -> (e: Error)
    ensures
        refusal(
            e,
            "ref/contended"@,
            "something is running in "@ + path@ + if locked {
                ": its operation log is locked; nothing was written"@
            } else {
                ": its operation log is contended; nothing was written"@
            },
            Seq::empty(),
        ),
{
    let a = crate::text::concat("something is running in ", path);
    let m = if locked {
        crate::text::concat(a.as_str(), ": its operation log is locked; nothing was written")
    } else {
        crate::text::concat(a.as_str(), ": its operation log is contended; nothing was written")
    };
    let v: Vec<String> = Vec::new();
    proof {
        assert(string_views(v@) =~= Seq::<Seq<char>>::empty());
    }
    Error::coded("ref/contended", m.as_str(), v)
}

/// The other worktree must still stand where the plan found it: on the
/// target, at the target's tip.
pub fn other_tree_moved(head: &HeadState, target: &str, target_tip: &str, path: &str) -> (r: Option<Error>)
    ensures
        r is None <==> (head matches HeadState::Branch { name, commit, .. } && name@ == target@ && commit@
            == target_tip@),
        r matches Some(e) ==> refusal(
            e,
            "ref/contended"@,
            path@ + " moved off "@ + target@ + " while fold was planning; nothing was written"@,
            Seq::empty(),
        ),
{
    let stands = match head {
        HeadState::Branch { name, commit, .. } => crate::text::str_eq(name.as_str(), target) && crate::text::str_eq(
            commit.as_str(),
            target_tip,
        ),
        _ => false,
    };
    if stands {
        return None;
    }
    let a = crate::text::concat(path, " moved off ");
    let b = crate::text::concat(a.as_str(), target);
    let m = crate::text::concat(b.as_str(), " while fold was planning; nothing was written");
    let v: Vec<String> = Vec::new();
    proof {
        assert(string_views(v@) =~= Seq::<Seq<char>>::empty());
    }
    Some(Error::coded("ref/contended", m.as_str(), v))
}

/// The refusal when the other worktree's open change would conflict with
/// the fold over the target's new tip.
pub fn other_tree_conflict(target: &str, path: &str, paths: &Vec<String>) -> (e: Error)
    ensures
        refusal(
            e,
            "fold/other-tree-conflict"@,
            target@ + "'s open change in "@ + path@ + " would conflict with the fold: "@
                + joined_paths(string_views(paths@)) + "; nothing was changed"@,
            seq!["ff fold "@ + target@, "ff worktree"@, "ff status"@],
        ),
{
    let a = crate::text::concat(target, "'s open change in ");
    let b = crate::text::concat(a.as_str(), path);
    let c = crate::text::concat(b.as_str(), " would conflict with the fold: ");
    let j = join_paths(paths);
    let d = crate::text::concat(c.as_str(), j.as_str());
    let m = crate::text::concat(d.as_str(), "; nothing was changed");
    let f = crate::text::concat("ff fold ", target);
    Error::coded("fold/other-tree-conflict", m.as_str(), exits3(f.as_str(), "ff worktree", "ff status"))
}

/// The note each half of `--stay` leaves about the other: on this chain,
/// that the holder's chain keeps the commits; on the holder's, that this
/// chain's source sits on the new tip.
pub fn companion_text(here_side: bool, chain: &str, path: &str, target: &str, source: &str, source_short: &str) -> (r: String)
    ensures
        r@ == if here_side {
            "the fold's other half is on "@ + chain@ + "'s chain ("@ + path@ + "): "@ + target@
                + " keeps the commits; ff undo there takes them back"@
        } else {
            "the fold's other half is on "@ + chain@ + "'s chain ("@ + path@ + "): "@ + source@
                + " keeps sitting on the new tip; ff undo there puts it back at "@ + source_short@
        },
{
    let a = crate::text::concat("the fold's other half is on ", chain);
    let b = crate::text::concat(a.as_str(), "'s chain (");
    let c = crate::text::concat(b.as_str(), path);
    let d = crate::text::concat(c.as_str(), "): ");
    if here_side {
        let e = crate::text::concat(d.as_str(), target);
        crate::text::concat(e.as_str(), " keeps the commits; ff undo there takes them back")
    } else {
        let e = crate::text::concat(d.as_str(), source);
        let f = crate::text::concat(e.as_str(), " keeps sitting on the new tip; ff undo there puts it back at ");
        crate::text::concat(f.as_str(), source_short)
    }
}

/// What the fold's guards read, as the verb gathers them: the repository's
/// state, the source's and the target's standing, and who holds the target.
pub struct FoldFacts {
    /// The repository has no working tree.
    pub bare: bool,
    /// A git operation half done, if any.
    pub in_progress: Option<InProgress>,
    pub head: HeadState,
    /// Trunk's name, when it resolves.
    pub trunk: Option<String>,
    /// The source is an editing session.
    pub source_session: bool,
    /// The session of a resolution open on the source (empty when the
    /// resolution predates session branches).
    pub source_resolving: Option<String>,
    /// Where a hold on the source stopped, when one is recorded.
    pub source_held: Option<String>,
    /// The target as it resolved: its full ref and its short name.
    pub target_full: String,
    pub target_name: String,
    /// The path of another worktree standing on the target.
    pub holder: Option<String>,
    /// `--stay` was given.
    pub stay: bool,
    /// The target is an editing session.
    pub target_session: bool,
    /// The session of a resolution open on the target.
    pub target_resolving: Option<String>,
}

/// A refusal as its id, its message and its ways out.
pub type Gate = (Seq<char>, Seq<char>, Seq<Seq<char>>);

/// The refusal of a branch with a resolution open in session `s`.
pub open spec fn resolving_gate(branch: Seq<char>, s: Seq<char>) -> Gate {
    if s.len() == 0 {
        (
            "held/expired"@,
            "the resolution on "@ + branch + " predates session branches: its markers are in your working copy"@,
            seq!["ff resolve --abandon"@, "ff restore <path>"@],
        )
    } else {
        (
            "held/resolving"@,
            "a resolution of "@ + branch + " is open on "@ + s,
            seq!["ff switch "@ + s, "ff resolve --abandon"@, "ff status"@],
        )
    }
}

/// The guards that name the source, in the order the fold takes them: the
/// first that applies refuses, and none applies when the fold may go on.
pub open spec fn source_gates(f: FoldFacts, source: Seq<char>) -> Option<Gate> {
    if f.trunk is Some && f.trunk->0@ == source {
        Some(("fold/trunk-source"@, source + " is trunk: it is what branches fold into, and folds into nothing"@,
            seq!["ff switch <branch>"@, "ff status"@]))
    } else if f.source_session {
        Some(("session/open"@, source + " is an editing session: folding it would land the commit being edited"@,
            seq!["ff done"@, "ff done --abandon"@]))
    } else if f.source_resolving is Some {
        Some(resolving_gate(source, f.source_resolving->0@))
    } else if f.source_held is Some {
        Some(("held/already-held"@, source + " already has a rewrite held at "@ + f.source_held->0@ + ": nothing was "@ + "folded"@,
            seq!["ff resolve"@, "ff resolve --abandon"@, "ff status"@]))
    } else if f.target_full@ == "refs/heads/"@ + source {
        Some(("usage/fold-into-self"@, source + " cannot be folded into itself"@, seq!["ff fold <branch>"@, "ff branch"@]))
    } else if !"refs/heads/"@.is_prefix_of(f.target_full@) {
        Some(("fold/remote-target"@, f.target_name@ + " lives on a remote: fold lands into a local branch only"@,
            seq!["ff start "@ + f.target_name@, "ff branch"@, "ff push"@]))
    } else if f.holder is Some && !f.stay {
        Some(("branch/checked-out-elsewhere"@,
            "'"@ + f.target_name@ + "' is already used by worktree at '"@ + f.holder->0@ + "'"@,
            seq!["ff fold "@ + f.target_name@ + " --stay"@, "ff worktree"@]))
    } else if f.target_session {
        Some(("session/open"@, f.target_name@ + " is an editing session: nothing folds into one"@,
            seq!["ff done"@, "ff done --abandon"@]))
    } else if f.target_resolving is Some {
        Some(resolving_gate(f.target_name@, f.target_resolving->0@))
    } else {
        None
    }
}

/// Every guard of the fold, in order: the repository's state, then HEAD,
/// then those that name the source and the target.
pub open spec fn fold_gates(f: FoldFacts) -> Option<Gate> {
    if f.bare {
        Some(("repo/bare"@, "bare repository: nothing to "@ + "fold"@, seq![]))
    } else if f.in_progress is Some {
        Some(("repo/mid-operation"@, "a "@ + op_name(f.in_progress->0) + finish_text(Finish::Rewrite), seq![]))
    } else {
        match f.head {
            HeadState::Unborn { .. } => Some(("target/unresolvable"@,
                "nothing is committed yet: there is nothing to fold"@, seq!["ff commit -m <msg>"@])),
            HeadState::Detached { .. } => Some(("repo/detached"@,
                "detached HEAD: stand on the branch to fold"@, seq!["ff switch <branch>"@])),
            HeadState::Branch { name, .. } => source_gates(f, name@),
        }
    }
}

fn opt_str(o: &Option<String>) -> (r: Option<&str>)
    ensures
        r is Some <==> o is Some,
        r is Some ==> r->0@ == o->0@,
{
    match o {
        Some(s) => Some(s.as_str()),
        None => None,
    }
}

/// The fold's guards, taken in order: the first that applies is the
/// refusal; when none does, the source (the branch underfoot) and its tip.
pub fn fold_guard(f: &FoldFacts) -> (r: Result<(String, String)>)
    ensures
        match fold_gates(*f) {
            Some((id, message, exits)) => r matches Err(e) && refusal(e, id, message, exits),
            None => match f.head {
                HeadState::Branch { name, commit, .. } => r == Ok::<(String, String), Error>((name, commit)),
                _ => false,
            },
        },
{
    if f.bare {
        return Err(bare_refusal("fold"));
    }
    if let Some(op) = f.in_progress {
        return Err(mid_operation(op, &Finish::Rewrite));
    }
    let (source, tip) = match fold_source(&f.head) {
        Ok(st) => st,
        Err(e) => return Err(e),
    };
    let s = source.as_str();
    if let Some(e) = trunk_refusal(s, opt_str(&f.trunk)) {
        return Err(e);
    }
    if let Some(e) = source_session_refusal(s, f.source_session) {
        return Err(e);
    }
    if let Some(e) = resolving_refusal(s, opt_str(&f.source_resolving)) {
        return Err(e);
    }
    if let Some(w) = &f.source_held {
        return Err(already_held(s, w.as_str(), "folded"));
    }
    let t = f.target_name.as_str();
    if let Some(e) = target_refusal(s, f.target_full.as_str(), t) {
        return Err(e);
    }
    if let Some(e) = holder_refusal(t, opt_str(&f.holder), f.stay) {
        return Err(e);
    }
    if let Some(e) = target_session_refusal(t, f.target_session) {
        return Err(e);
    }
    if let Some(e) = resolving_refusal(t, opt_str(&f.target_resolving)) {
        return Err(e);
    }
    Ok((source, tip))
}

/// The refusal when the refs moved while the fold was writing them.
pub fn fold_contended() -> (e: Error)
    ensures
        refusal(
            e,
            "ref/contended"@,
            "refs moved while folding; nothing was folded (re-run to fold onto the new tips)"@,
            Seq::empty(),
        ),
{
    let v: Vec<String> = Vec::new();
    proof {
        assert(string_views(v@) =~= Seq::<Seq<char>>::empty());
    }
    Error::coded("ref/contended", "refs moved while folding; nothing was folded (re-run to fold onto the new tips)", v)
}

} // verus!
