//! A rewrite that conflicted and is waiting, and the resolution session that
//! works on it. What is recorded is the verb's own question (the branch,
//! the target, what it was asked to become) and never the plan it could
//! not finish computing: `ff resolve` re-derives the plan from the
//! repository as it stands, and a target that has since gone expires the
//! hold loudly at the moment somebody asks.

use vstd::prelude::*;
use crate::branchmeta::Session;
use crate::error::{Error, Result};
use crate::futures::At;
use crate::hex::hex_of;
use crate::journal::{RefTransition, RefsTable, StashEffect};
use crate::linked::PARKED_PREFIX;
use crate::oid::Oid;

verus! {

/// What a held rewrite was asked to do, in terms that can be asked again.
#[derive(Debug, Clone)]
pub enum Intent {
    /// `ff restack`: replay `branch` onto whatever `onto` resolves to now.
    Restack { branch: String, onto: String },
    /// `ff done`: land the editing session on `session`.
    Done { session: String },
    /// `ff absorb`: fold the open change into `into`.
    Absorb { into: String, paths: Vec<String> },
    /// `ff lift`: take `paths` out of `from` and back into the open change.
    Lift { from: String, paths: Vec<String> },
}

/// A rewrite that conflicted and is waiting, recorded as one field of the
/// branch's metadata.
#[derive(Debug, Clone)]
pub struct Held {
    pub intent: Intent,
    /// Where it stopped when it was recorded: disclosure only.
    pub at: At,
    pub paths: Vec<String>,
    /// When it was held, seconds since the epoch.
    pub time: i64,
}

/// An open resolution session, recorded on the branch the hold stands on.
#[derive(Debug, Clone)]
pub struct Resolve {
    /// The hold being resolved, copied so a hold rewritten underneath an
    /// open session cannot change what the session is resolving.
    pub hold: Held,
    /// The marker tree this session materialized, full sha.
    pub from: String,
    /// Each step's subject, oldest first.
    pub steps: Vec<String>,
    /// The working tree, as a tree, at the moment the session opened.
    pub open: Option<String>,
    /// The session branch; empty on a record written before sessions were
    /// branches.
    pub session: String,
}

/// A hold's change on one branch, as an operation records it.
#[derive(Debug, Clone)]
pub struct HeldTransition {
    pub branch: String,
    pub old: Option<Held>,
    pub new: Option<Held>,
}

/// A resolution session's change on one branch, as an operation records it.
#[derive(Debug, Clone)]
pub struct ResolveTransition {
    pub branch: String,
    pub old: Option<Resolve>,
    pub new: Option<Resolve>,
}

/// What a landing clears on the branch it lands: the hold and the session
/// that stood there, if any.
#[derive(Debug, Clone)]
pub struct Clearing {
    pub branch: String,
    pub held: Option<Held>,
    pub resolve: Option<Resolve>,
}

/// The verb an intent names, as the reports and the re-run spell it.
pub open spec fn verb_spec(i: Intent) -> Seq<char> {
    match i {
        Intent::Restack { .. } => "restack"@,
        Intent::Done { .. } => "done"@,
        Intent::Absorb { .. } => "absorb"@,
        Intent::Lift { .. } => "lift"@,
    }
}

/// The verb that held, in the spelling the reports and the re-run carry.
pub fn verb_of(held: &Held) -> (r: String)
    ensures
        r@ == verb_spec(held.intent),
{
    let w = match &held.intent {
        Intent::Restack { .. } => "restack",
        Intent::Done { .. } => "done",
        Intent::Absorb { .. } => "absorb",
        Intent::Lift { .. } => "lift",
    };
    crate::text::owned(w)
}

/// Where a hold stopped, as a refusal names it: the commit's short id and
/// its subject in quotes, or the open change.
pub fn where_held(at: &At, short: &str) -> (r: String)
    ensures
        r@ == match *at {
            At::Commit { subject, .. } => short@ + " \""@ + subject@ + "\""@,
            At::OpenChange => "your open change"@,
        },
{
    match at {
        At::Commit { subject, .. } => {
            let a = crate::text::concat(short, " \"");
            let b = crate::text::concat(a.as_str(), subject.as_str());
            crate::text::concat(b.as_str(), "\"")
        },
        At::OpenChange => crate::text::owned("your open change"),
    }
}

/// One hold per branch: the refusal a second conflicting rewrite gets.
/// `verb_past` completes "nothing was ___".
pub fn already_held(branch: &str, where_held: &str, verb_past: &str) -> (e: Error)
    ensures
        e matches Error::Coded { id, message, exits } && id@ == "held/already-held"@
            && message@ == branch@ + " already has a rewrite held at "@ + where_held@ + ": nothing was "@ + verb_past@
            && crate::text::string_views(exits@) == seq!["ff resolve"@, "ff resolve --abandon"@, "ff status"@],
{
    let a = crate::text::concat(branch, " already has a rewrite held at ");
    let b = crate::text::concat(a.as_str(), where_held);
    let c = crate::text::concat(b.as_str(), ": nothing was ");
    let m = crate::text::concat(c.as_str(), verb_past);
    let mut exits: Vec<String> = Vec::new();
    exits.push(crate::text::owned("ff resolve"));
    exits.push(crate::text::owned("ff resolve --abandon"));
    exits.push(crate::text::owned("ff status"));
    assert(crate::text::string_views(exits@) =~= seq!["ff resolve"@, "ff resolve --abandon"@, "ff status"@]);
    Error::coded("held/already-held", m.as_str(), exits)
}

/// A replan failure as an expiration: the hold named a thing that is no
/// longer where it stood, so the hold is stale rather than the command
/// wrong. The underlying message is kept.
pub fn expired(verb: &str, why: &Error) -> (e: Error)
    ensures
        e matches Error::Coded { id, message, exits } && id@ == "held/expired"@
            && message@ == "the held "@ + verb@ + " cannot be replanned: "@ + why.text_spec() + "; the hold is stale"@
            && crate::text::string_views(exits@) == seq!["ff resolve --abandon"@, "ff status"@],
{
    let a = crate::text::concat("the held ", verb);
    let b = crate::text::concat(a.as_str(), " cannot be replanned: ");
    let w = why.text();
    let c = crate::text::concat(b.as_str(), w.as_str());
    let m = crate::text::concat(c.as_str(), "; the hold is stale");
    let mut exits: Vec<String> = Vec::new();
    exits.push(crate::text::owned("ff resolve --abandon"));
    exits.push(crate::text::owned("ff status"));
    assert(crate::text::string_views(exits@) =~= seq!["ff resolve --abandon"@, "ff status"@]);
    Error::coded("held/expired", m.as_str(), exits)
}

/// The refusal for a resolution recorded before sessions were branches:
/// its markers are in the branch's own working copy, and only `--abandon`
/// clears it.
pub fn predates_sessions(branch: &str) -> (e: Error)
    ensures
        e matches Error::Coded { id, message, exits } && id@ == "held/expired"@
            && message@ == "the resolution on "@ + branch@ + " predates session branches: its markers are in your working copy"@
            && crate::text::string_views(exits@) == seq!["ff resolve --abandon"@, "ff restore <path>"@],
{
    let a = crate::text::concat("the resolution on ", branch);
    let m = crate::text::concat(a.as_str(), " predates session branches: its markers are in your working copy");
    let mut exits: Vec<String> = Vec::new();
    exits.push(crate::text::owned("ff resolve --abandon"));
    exits.push(crate::text::owned("ff restore <path>"));
    assert(crate::text::string_views(exits@) =~= seq!["ff resolve --abandon"@, "ff restore <path>"@]);
    Error::coded("held/expired", m.as_str(), exits)
}

/// Whether `branch` is the session of the resolution recorded on the
/// branch its own session record lands on: both halves have to agree, so a
/// stale record on either side reads as no session.
pub fn names_back(branch: &str, resolve: &Resolve) -> (r: bool)
    ensures
        r == (resolve.session@ == branch@),
{
    crate::text::str_eq(resolve.session.as_str(), branch)
}

/// The two transitions a clearing landing records: each carries what stood
/// on the branch as `old` and nothing as `new`, so one `ff undo` of the
/// landing puts the hold and the session back together; none on an axis
/// the clearing had nothing to clear.
pub fn clearing_transitions(clearing: Clearing) -> (r: (Option<HeldTransition>, Option<ResolveTransition>))
    ensures
        r.0 is Some <==> clearing.held is Some,
        r.0 matches Some(t) ==> t.branch == clearing.branch && t.old == clearing.held && t.new is None,
        r.1 is Some <==> clearing.resolve is Some,
        r.1 matches Some(t) ==> t.branch == clearing.branch && t.old == clearing.resolve && t.new is None,
{
    let Clearing { branch, held, resolve } = clearing;
    let held_t = match held {
        Some(old) => Some(HeldTransition { branch: branch.clone(), old: Some(old), new: None }),
        None => None,
    };
    let resolve_t = match resolve {
        Some(old) => Some(ResolveTransition { branch, old: Some(old), new: None }),
        None => None,
    };
    (held_t, resolve_t)
}

/// A clearing landing's record: its two transitions written into the
/// operation, everything else as it was.
pub fn record_clearing(record: &mut crate::journal::OpRecord, clearing: Clearing)
    ensures
        final(record).held is Some <==> clearing.held is Some,
        final(record).held matches Some(t) ==> t.branch == clearing.branch && t.old == clearing.held && t.new is None,
        final(record).resolving is Some <==> clearing.resolve is Some,
        final(record).resolving matches Some(t) ==> t.branch == clearing.branch && t.old == clearing.resolve && t.new is None,
        final(record).resolve_session == old(record).resolve_session,
        final(record).head == old(record).head,
        final(record).refs == old(record).refs,
        final(record).stash == old(record).stash,
        same_identity(*final(record), *old(record)),
{
    let (held, resolving) = clearing_transitions(clearing);
    record.held = held;
    record.resolving = resolving;
}

/// Two records of one operation: the same verb, words, time, branch,
/// snapshot, index, description and links.
pub open spec fn same_identity(a: crate::journal::OpRecord, b: crate::journal::OpRecord) -> bool {
    &&& a.version == b.version && a.kind == b.kind && a.verb == b.verb && a.summary == b.summary
    &&& a.argv == b.argv && a.time == b.time && a.branch == b.branch && a.pre_snapshot == b.pre_snapshot
    &&& a.index_tree == b.index_tree && a.description == b.description && a.undo_of == b.undo_of && a.prev == b.prev
}

/// The stash stack's ref.
pub const STASH_REF: &'static str = "refs/stash";

/// What arriving on a branch does with the change parked there, as far as
/// the trip is concerned: restore it over the landed tip (to these trees),
/// let it go because it no longer applies, stop on a conflict, or nothing
/// parked.
#[derive(Debug, Clone, Copy)]
pub enum ArrivePlan {
    Nothing,
    Restore { stash: Oid, target_wip: Oid, target_index: Oid },
    Invalidate { stash: Oid },
    Conflict { stash: Oid },
}

/// The return trip a resolution landing makes: the session branch is
/// deleted, HEAD goes back to the branch the landing leaves you on, the
/// working copy moves from the fixes to the landed tip, and the parked
/// change the way out left behind is either brought back or spent.
#[derive(Debug, Clone)]
pub struct Return {
    /// The session branch.
    pub session: String,
    /// Its tip: the marker commit, unless something committed on it.
    pub session_tip: Oid,
    pub session_meta: Session,
    /// The session's working copy as a tree: the fixes.
    pub worktree: Oid,
    /// The branch the hold stands on.
    pub hold_on: String,
    /// The branch HEAD lands on.
    pub to: String,
    /// The branch whose parked change comes back on arrival.
    pub arrive_on: Option<String>,
    /// The parked change the landing spends, as the branch and the stash
    /// commit: it was folded in already, so bringing it back would apply it
    /// twice.
    pub spent: Option<(String, Oid)>,
}

/// The branch whose parked change a trip spends, if its intent spends one:
/// the session's `onto` for an absorb or a lift, the editing session for a
/// done, none for a restack.
pub open spec fn spent_branch_spec(intent: Intent, session_onto: Seq<char>) -> Option<Seq<char>> {
    match intent {
        Intent::Restack { .. } => None,
        Intent::Absorb { .. } | Intent::Lift { .. } => Some(session_onto),
        Intent::Done { session } => Some(session@),
    }
}

/// Where HEAD lands, and whose parked change comes back: the held branch
/// for a restack, the session's `onto` (and nothing back) for an absorb or
/// a lift, the branch the editing session lands on for a done.
pub open spec fn trip_ends(intent: Intent, session_onto: Seq<char>, landing: Seq<char>) -> (Seq<char>, Option<Seq<char>>) {
    match intent {
        Intent::Restack { branch, .. } => (branch@, Some(branch@)),
        Intent::Absorb { .. } | Intent::Lift { .. } => (session_onto, None),
        Intent::Done { .. } => (landing, Some(landing)),
    }
}

/// The branch whose parked change a trip for `intent` spends.
pub fn spent_branch(intent: &Intent, session_onto: &str) -> (r: Option<String>)
    ensures
        crate::text::opt_view(r) == spent_branch_spec(*intent, session_onto@),
        intent is Restack ==> r is None,
        intent is Absorb || intent is Lift ==> (r matches Some(b) && b@ == session_onto@),
        intent matches Intent::Done { session } ==> (r matches Some(b) && b@ == session@),
{
    match intent {
        Intent::Restack { .. } => None,
        Intent::Absorb { .. } | Intent::Lift { .. } => Some(crate::text::owned(session_onto)),
        Intent::Done { session } => Some(session.clone()),
    }
}

/// A lift spends what an absorb spends: both fold the change parked on the
/// session's `onto` into the landing, so the trip spends that park and
/// brings nothing back, whatever the intent carries. A restack spends
/// nothing and brings its own branch's park back; a done spends the
/// editing session's park.
pub proof fn lemma_folding_spends_onto(i: Intent, onto: Seq<char>, landing: Seq<char>)
    ensures
        (i is Absorb || i is Lift) ==> spent_branch_spec(i, onto) == Some(onto),
        (i is Absorb || i is Lift) ==> trip_ends(i, onto, landing) == (onto, None::<Seq<char>>),
        (i is Restack) ==> spent_branch_spec(i, onto) is None,
        (i is Done) ==> spent_branch_spec(i, onto) == Some(i->Done_session@),
        forall|j: Intent, k: Intent| j is Lift && k is Absorb ==>
            #[trigger] spent_branch_spec(j, onto) == #[trigger] spent_branch_spec(k, onto),
{
}

impl Return {
    /// Plan the trip from `session` for a resolution of `hold_on`'s
    /// `intent`, whose fixes stand in `worktree`. The rest is what was read:
    /// the session branch's tip and its session, for a done the editing
    /// session's own session, and the change parked on the branch
    /// `spent_branch` names. A session branch gone, or carrying no session,
    /// is an internal error, checked in that order.
    pub fn plan(
        session: &str,
        hold_on: &str,
        intent: &Intent,
        worktree: Oid,
        session_tip: Option<Oid>,
        session_meta: Option<Session>,
        landing_meta: Option<Session>,
        parked: Option<Oid>,
    ) -> (r: Result<Return>)
        ensures
            session_tip is None ==> (r matches Err(e) && e matches Error::Repo(m)
                && m@ == "internal: the session branch "@ + session@ + " is gone"@),
            session_tip is Some && session_meta is None ==> (r matches Err(e) && e matches Error::Repo(m)
                && m@ == "internal: "@ + session@ + " carries no session"@),
            session_tip is Some && session_meta is Some && landing_meta is None && intent is Done ==> (r matches Err(e)
                && e matches Error::Repo(m) && m@ == "internal: "@ + intent->Done_session@ + " carries no session"@),
            session_tip is Some && session_meta is Some && (landing_meta is Some || !(intent is Done)) ==> (r matches Ok(t)
                && t.session@ == session@
                && Some(t.session_tip) == session_tip
                && Some(t.session_meta) == session_meta
                && t.worktree == worktree
                && t.hold_on@ == hold_on@
                && (t.to@, crate::text::opt_view(t.arrive_on)) == trip_ends(
                    *intent,
                    session_meta->0.onto@,
                    if intent is Done { landing_meta->0.onto@ } else { Seq::empty() },
                )
                && (match (spent_branch_spec(*intent, session_meta->0.onto@), parked) {
                    (Some(b), Some(p)) => t.spent matches Some(x) && x.0@ == b && x.1 == p,
                    _ => t.spent is None,
                })
                && ((intent is Absorb || intent is Lift) ==> match parked {
                    Some(p) => t.spent matches Some(x) && x.0@ == session_meta->0.onto@ && x.1 == p,
                    None => t.spent is None,
                })
                && ((intent is Absorb || intent is Lift) ==> t.to@ == session_meta->0.onto@ && t.arrive_on is None)
                && (intent is Restack ==> t.to@ == intent->Restack_branch@ && t.spent is None
                    && crate::text::opt_view(t.arrive_on) == Some(intent->Restack_branch@))
                && (intent is Done ==> t.to@ == landing_meta->0.onto@
                    && crate::text::opt_view(t.arrive_on) == Some(landing_meta->0.onto@)
                    && match parked {
                        Some(p) => t.spent matches Some(x) && x.0@ == intent->Done_session@ && x.1 == p,
                        None => t.spent is None,
                    })),
    {
        let tip = match session_tip {
            Some(t) => t,
            None => {
                let a = crate::text::concat("internal: the session branch ", session);
                let m = crate::text::concat(a.as_str(), " is gone");
                return Err(Error::msg(m.as_str()));
            },
        };
        let meta = match session_meta {
            Some(m) => m,
            None => {
                let a = crate::text::concat("internal: ", session);
                let m = crate::text::concat(a.as_str(), " carries no session");
                return Err(Error::msg(m.as_str()));
            },
        };
        let (to, arrive_on, spent) = match intent {
            Intent::Restack { branch, .. } => (branch.clone(), Some(branch.clone()), None),
            Intent::Absorb { .. } | Intent::Lift { .. } => {
                let onto = meta.onto.clone();
                let spent = match parked {
                    Some(p) => Some((onto.clone(), p)),
                    None => None,
                };
                (onto, None, spent)
            },
            Intent::Done { session: edit } => {
                let landing = match landing_meta {
                    Some(l) => l.onto,
                    None => {
                        let a = crate::text::concat("internal: ", edit.as_str());
                        let m = crate::text::concat(a.as_str(), " carries no session");
                        return Err(Error::msg(m.as_str()));
                    },
                };
                let spent = match parked {
                    Some(p) => Some((edit.clone(), p)),
                    None => None,
                };
                (landing.clone(), Some(landing), spent)
            },
        };
        Ok(Return {
            session: crate::text::owned(session),
            session_tip: tip,
            session_meta: meta,
            worktree,
            hold_on: crate::text::owned(hold_on),
            to,
            arrive_on,
            spent,
        })
    }

    /// The end state the verb records, as the working tree and the index:
    /// the restored change when the arrival brings one back, else the
    /// landed tip's tree on both.
    pub fn end_trees(arrive: &ArrivePlan, new_tip_tree: Oid) -> (r: (Oid, Oid))
        ensures
            r == match *arrive {
                ArrivePlan::Restore { target_wip, target_index, .. } => (target_wip, target_index),
                _ => (new_tip_tree, new_tip_tree),
            },
    {
        match arrive {
            ArrivePlan::Restore { target_wip, target_index, .. } => (*target_wip, *target_index),
            _ => (new_tip_tree, new_tip_tree),
        }
    }

    /// The deletions the trip adds to the verb's ref transaction, each with
    /// the value it must still hold: the session branch, and the spent
    /// park's ref, so the landing and the return are all-or-nothing.
    pub fn edits(&self) -> (r: Vec<(String, Oid)>)
        ensures
            r@.len() == if self.spent is Some { 2int } else { 1int },
            r@[0].0@ == "refs/heads/"@ + self.session@ && r@[0].1 == self.session_tip,
            self.spent matches Some(x) ==> r@[1].0@ == PARKED_PREFIX@ + x.0@ && r@[1].1 == x.1,
    {
        let mut v: Vec<(String, Oid)> = Vec::new();
        v.push((crate::branch::heads_ref(self.session.as_str()), self.session_tip));
        match &self.spent {
            Some((branch, sha)) => {
                v.push((crate::text::concat(PARKED_PREFIX, branch.as_str()), *sha));
            },
            None => {},
        }
        v
    }
}

/// A session's change on one branch, as an operation records it.
#[derive(Debug, Clone)]
pub struct SessionTransition {
    pub branch: String,
    pub old: Option<Session>,
    pub new: Option<Session>,
}

/// Where the last entry of `s` that is `x` stands; -1 when none is.
pub open spec fn last_pos(s: Seq<Oid>, x: Oid) -> int
    decreases s.len(),
{
    if s.len() == 0 {
        -1
    } else if s.last()@ == x@ {
        s.len() - 1
    } else {
        last_pos(s.drop_last(), x)
    }
}

/// `s` with the last entry that is `x` taken out, as it was when none is.
pub open spec fn without_last(s: Seq<Oid>, x: Oid) -> Seq<Oid> {
    if last_pos(s, x) < 0 { s } else { s.remove(last_pos(s, x)) }
}

/// Nothing, or the one value.
pub open spec fn opt_seq<T>(o: Option<T>) -> Seq<T> {
    match o {
        Some(v) => seq![v],
        None => Seq::empty(),
    }
}

/// `m` without each name of `dels`.
pub open spec fn removing(m: Map<Seq<char>, Seq<char>>, dels: Seq<(Seq<char>, Oid)>) -> Map<Seq<char>, Seq<char>>
    decreases dels.len(),
{
    if dels.len() == 0 {
        m
    } else {
        removing(m, dels.drop_last()).remove(dels.last().0)
    }
}

/// A transition that deletes ref `name`, which held `old`.
pub open spec fn deletes(t: RefTransition, name: Seq<char>, old: Oid) -> bool {
    t.name@ == name && (t.old matches Some(o) && o@ == hex_of(old@)) && t.new is None
}

/// A stash effect that drops `stash`, parked for `branch`.
pub open spec fn drops(e: StashEffect, branch: Seq<char>, stash: Oid) -> bool {
    e matches StashEffect::Drop { branch: b, stash: s } && b@ == branch && s@ == hex_of(stash@)
}

/// A record that is `old` with only HEAD's transition, ref transitions,
/// stash effects and the resolution session's change touched.
pub open spec fn same_but_moves(a: crate::journal::OpRecord, b: crate::journal::OpRecord) -> bool {
    &&& same_identity(a, b)
    &&& a.held == b.held && a.resolving == b.resolving
}
fn remove_last(lines: &mut Vec<Oid>, x: &Oid)
    ensures
        final(lines)@ == without_last(old(lines)@, *x),
{
    let ghost s = lines@;
    let mut i: usize = lines.len();
    while i > 0
        invariant
            i <= s.len(),
            lines@ == s,
            s == old(lines)@,
            forall|k: int| i <= k < s.len() ==> (#[trigger] s[k])@ != x@,
        decreases i,
    {
        if lines[i - 1].same(x) {
            proof {
                lemma_last_pos_tail(s, *x, i as int);
                assert(s.take(i as int).last() == s[i - 1]);
                assert(s.take(i as int).len() == i);
                assert(last_pos(s.take(i as int), *x) == i - 1);
            }
            lines.remove(i - 1);
            assert(lines@ == s.remove(i - 1));
            return;
        }
        i -= 1;
    }
    proof {
        lemma_last_pos_tail(s, *x, 0);
        assert(s.take(0).len() == 0);
    }
}

proof fn lemma_last_pos_tail(s: Seq<Oid>, x: Oid, i: int)
    requires
        0 <= i <= s.len(),
        forall|k: int| i <= k < s.len() ==> (#[trigger] s[k])@ != x@,
    ensures
        last_pos(s, x) == last_pos(s.take(i), x),
    decreases s.len(),
{
    if i == s.len() {
        assert(s.take(i) =~= s);
    } else {
        assert(s.last() == s[s.len() - 1]);
        let d = s.drop_last();
        assert forall|k: int| i <= k < d.len() implies (#[trigger] d[k])@ != x@ by {
            assert(d[k] == s[k]);
        }
        lemma_last_pos_tail(d, x, i);
        assert(d.take(i) =~= s.take(i));
    }
}

impl Return {
    /// What the arrival on `arrive_on` spends: the parked ref it deletes
    /// with the stash it held, whether that stash leaves the stack, and the
    /// stash it pins.
    pub open spec fn arrival_parts(self, a: ArrivePlan) -> (Option<(Seq<char>, Oid)>, bool, Option<Oid>) {
        match self.arrive_on {
            None => (None, false, None),
            Some(b) => match a {
                ArrivePlan::Restore { stash, .. } => (Some((b@, stash)), true, Some(stash)),
                ArrivePlan::Invalidate { stash } => (Some((b@, stash)), false, Some(stash)),
                ArrivePlan::Conflict { stash } => (None, false, Some(stash)),
                ArrivePlan::Nothing => (None, false, None),
            },
        }
    }

    /// The spent park as a ref and its stash.
    pub open spec fn spent_park(self) -> Option<(Seq<char>, Oid)> {
        match self.spent {
            Some(x) => Some((PARKED_PREFIX@ + x.0@, x.1)),
            None => None,
        }
    }

    /// The refs the trip deletes, in order, with what each held: the
    /// session branch, the arrival's park, the spent park.
    pub open spec fn deleted_refs(self, a: ArrivePlan) -> Seq<(Seq<char>, Oid)> {
        seq![("refs/heads/"@ + self.session@, self.session_tip)]
            + opt_seq(match self.arrival_parts(a).0 {
                Some(x) => Some((PARKED_PREFIX@ + x.0, x.1)),
                None => None,
            })
            + opt_seq(self.spent_park())
    }

    /// The stash entries the trip drops, with the branch each was parked
    /// for.
    pub open spec fn dropped_stashes(self, a: ArrivePlan) -> Seq<(Seq<char>, Oid)> {
        (if self.arrival_parts(a).1 { opt_seq(self.arrival_parts(a).0) } else { Seq::empty() })
            + opt_seq(match self.spent {
                Some(x) => Some((x.0@, x.1)),
                None => None,
            })
    }

    /// The commits the trip pins, in order.
    pub open spec fn pinned(self, a: ArrivePlan) -> Seq<Oid> {
        seq![self.session_tip] + opt_seq(self.arrival_parts(a).2) + opt_seq(match self.spent {
            Some(x) => Some(x.1),
            None => None,
        })
    }

    /// The stash stack after the trip: the arrival's restored entry and the
    /// spent one each taken out, the last of each.
    pub open spec fn lines_after(self, a: ArrivePlan, lines: Seq<Oid>) -> Seq<Oid> {
        let l1 = match self.arrival_parts(a).0 {
            Some(x) => if self.arrival_parts(a).1 { without_last(lines, x.1) } else { lines },
            None => lines,
        };
        match self.spent {
            Some(x) => without_last(l1, x.1),
            None => l1,
        }
    }

    /// Fold the trip into the verb's write-ahead: the HEAD move, the session
    /// branch's deletion and its session's end, both recorded,
    /// the arrival's and the spent park's stash effects, and the pins.
    /// `stash_lines` is the stash stack as the verb read it, and the planned
    /// `refs/stash` is set from what is left of it.
    pub fn fold_into(
        &self,
        planned: &mut RefsTable,
        record: &mut crate::journal::OpRecord,
        pins: &mut Vec<Oid>,
        stash_lines: &mut Vec<Oid>,
        arrive: &ArrivePlan,
    )
        requires
            old(planned).wf(),
        ensures
            final(record).resolve_session matches Some(t) && t.branch == self.session
                && t.old == Some(self.session_meta) && t.new is None,
            final(planned).wf(),
            final(planned).head@ == "ref:"@ + ("refs/heads/"@ + self.to@),
            final(planned).map() == {
                let m = removing(old(planned).map(), self.deleted_refs(*arrive));
                let left = self.lines_after(*arrive, old(stash_lines)@);
                if left.len() > 0 { m.insert(STASH_REF@, hex_of(left.last()@)) } else { m.remove(STASH_REF@) }
            },
            same_but_moves(*final(record), *old(record)),
            final(record).head matches Some(h) && h.0@ == "ref:"@ + ("refs/heads/"@ + self.session@)
                && h.1@ == "ref:"@ + ("refs/heads/"@ + self.to@),
            final(record).refs@.len() == old(record).refs@.len() + self.deleted_refs(*arrive).len(),
            forall|i: int| 0 <= i < old(record).refs@.len() ==> final(record).refs@[i] == old(record).refs@[i],
            forall|i: int| 0 <= i < self.deleted_refs(*arrive).len() ==> deletes(
                #[trigger] final(record).refs@[old(record).refs@.len() + i],
                self.deleted_refs(*arrive)[i].0,
                self.deleted_refs(*arrive)[i].1,
            ),
            final(record).stash@.len() == old(record).stash@.len() + self.dropped_stashes(*arrive).len(),
            forall|i: int| 0 <= i < old(record).stash@.len() ==> final(record).stash@[i] == old(record).stash@[i],
            forall|i: int| 0 <= i < self.dropped_stashes(*arrive).len() ==> drops(
                #[trigger] final(record).stash@[old(record).stash@.len() + i],
                self.dropped_stashes(*arrive)[i].0,
                self.dropped_stashes(*arrive)[i].1,
            ),
            final(pins)@ == old(pins)@ + self.pinned(*arrive),
            final(stash_lines)@ == self.lines_after(*arrive, old(stash_lines)@),
    {
        let ghost refs0 = record.refs@;
        let ghost stash0 = record.stash@;
        let ghost map0 = planned.map();
        let ghost dels = self.deleted_refs(*arrive);
        let ghost drops_exp = self.dropped_stashes(*arrive);
        let session_ref = crate::branch::heads_ref(self.session.as_str());
        let to_ref = crate::branch::heads_ref(self.to.as_str());
        planned.head = crate::text::concat("ref:", to_ref.as_str());
        record.head = Some((crate::text::concat("ref:", session_ref.as_str()), crate::text::concat("ref:", to_ref.as_str())));
        planned.remove(session_ref.as_str());
        record.refs.push(RefTransition { name: session_ref, old: Some(self.session_tip.to_hex()), new: None });
        let transition = SessionTransition {
            branch: self.session.clone(),
            old: Some(Session { onto: self.session_meta.onto.clone(), at: self.session_meta.at.clone() }),
            new: None,
        };
        pins.push(self.session_tip);
        let ghost n_refs: int = 1;
        let ghost n_drops: int = 0;
        proof {
            assert(dels[0] == ("refs/heads/"@ + self.session@, self.session_tip));
            assert(dels.take(1).drop_last() =~= Seq::<(Seq<char>, Oid)>::empty());
            assert(dels.take(1).last() == dels[0]);
            assert(removing(map0, Seq::<(Seq<char>, Oid)>::empty()) == map0);
            assert(removing(map0, dels.take(1)) == map0.remove(dels[0].0));
        }
        match &self.arrive_on {
            Some(branch) => {
                match arrive {
                    ArrivePlan::Restore { stash: sha, .. } => {
                        remove_last(stash_lines, sha);
                        let parked = crate::text::concat(PARKED_PREFIX, branch.as_str());
                        planned.remove(parked.as_str());
                        record.refs.push(RefTransition { name: parked, old: Some(sha.to_hex()), new: None });
                        record.stash.push(StashEffect::Drop { branch: branch.clone(), stash: sha.to_hex() });
                        pins.push(*sha);
                        proof {
                            n_refs = 2;
                            n_drops = 1;
                            assert(dels.take(2).drop_last() =~= dels.take(1));
                            assert(dels.take(2).last() == dels[1]);
                        }
                    },
                    ArrivePlan::Invalidate { stash: sha } => {
                        let parked = crate::text::concat(PARKED_PREFIX, branch.as_str());
                        planned.remove(parked.as_str());
                        record.refs.push(RefTransition { name: parked, old: Some(sha.to_hex()), new: None });
                        pins.push(*sha);
                        proof {
                            n_refs = 2;
                            assert(dels.take(2).drop_last() =~= dels.take(1));
                            assert(dels.take(2).last() == dels[1]);
                        }
                    },
                    ArrivePlan::Conflict { stash: sha } => {
                        pins.push(*sha);
                    },
                    ArrivePlan::Nothing => {},
                }
            },
            None => {},
        }
        proof {
            assert(planned.map() == removing(map0, dels.take(n_refs)));
            assert(record.refs@.len() == refs0.len() + n_refs);
            assert(record.stash@.len() == stash0.len() + n_drops);
        }
        match &self.spent {
            Some((branch, sha)) => {
                remove_last(stash_lines, sha);
                let parked = crate::text::concat(PARKED_PREFIX, branch.as_str());
                planned.remove(parked.as_str());
                record.refs.push(RefTransition { name: parked, old: Some(sha.to_hex()), new: None });
                record.stash.push(StashEffect::Drop { branch: branch.clone(), stash: sha.to_hex() });
                pins.push(*sha);
                proof {
                    assert(dels.take(n_refs + 1).drop_last() =~= dels.take(n_refs));
                    assert(dels.take(n_refs + 1).last() == dels[n_refs]);
                    n_refs = n_refs + 1;
                    n_drops = n_drops + 1;
                }
            },
            None => {},
        }
        proof {
            assert(dels.take(n_refs) =~= dels);
            assert(pins@ =~= old(pins)@ + self.pinned(*arrive));
        }
        if stash_lines.len() > 0 {
            let tip = stash_lines[stash_lines.len() - 1].to_hex();
            planned.insert(STASH_REF, tip.as_str());
        } else {
            planned.remove(STASH_REF);
        }
        proof {
            assert forall|i: int| 0 <= i < dels.len() implies deletes(
                #[trigger] record.refs@[refs0.len() + i],
                dels[i].0,
                dels[i].1,
            ) by {}
            assert forall|i: int| 0 <= i < drops_exp.len() implies drops(
                #[trigger] record.stash@[stash0.len() + i],
                drops_exp[i].0,
                drops_exp[i].1,
            ) by {}
        }
        record.resolve_session = Some(transition);
    }
}

} // verus!
