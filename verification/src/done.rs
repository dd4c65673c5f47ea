//! `ff done` ends an editing session opened by `ff edit`: the edited commit
//! is amended with the session's content, what waited ahead of it on the
//! branch it replays onto is replayed, the worktree lands back on that
//! branch, and the session branch is gone, all in one operation so that a
//! single `ff undo` takes the whole session back. `--abandon` drops the
//! session without landing it.
//!
//! Here are the verb's decisions: the guards on the session, whether there
//! is anything to land, what the amended commit became, and the
//! transitions, ref table, pins, summary and report the landing records.

use vstd::prelude::*;
use crate::cascade::walk::{Rewrite, rewritten};
use crate::error::{Error, Result};
use crate::fold::refusal;
use crate::futures::At;
use crate::branchmeta::Session;
use crate::held::{Held, Intent, Resolve, ResolveTransition, SessionTransition};
use crate::journal::{OpKind, OpRecord, RefTransition, RefsTable};
use crate::guard::{Finish, bare_refusal, finish_text, mid_operation, op_name};
use crate::model::{ArrivalReport, HeadState, InProgress};
use crate::oid::Oid;
use crate::text::{decimal, string_views};

verus! {

fn exits2(a: &str, b: &str) -> (v: Vec<String>)
    ensures
        string_views(v@) == seq![a@, b@],
{
    let mut v: Vec<String> = Vec::new();
    v.push(crate::text::owned(a));
    v.push(crate::text::owned(b));
    proof {
        assert(string_views(v@) =~= seq![a@, b@]);
    }
    v
}

/// The refusal when no editing session is running.
pub fn session_none() -> (e: Error)
    ensures
        refusal(e, "session/none"@, "no editing session is running"@, seq!["ff edit <rev>"@, "ff status"@]),
{
    Error::coded("session/none", "no editing session is running", exits2("ff edit <rev>", "ff status"))
}

/// The session underfoot: the branch HEAD stands on, with its tip. Nothing
/// committed, or a detached HEAD, is no session.
pub fn session_of(head: &HeadState) -> (r: Result<(String, String)>)
    ensures
        match *head {
            HeadState::Branch { name, commit, .. } => r == Ok::<(String, String), Error>((name, commit)),
            _ => r matches Err(e) && refusal(
                e,
                "session/none"@,
                "no editing session is running"@,
                seq!["ff edit <rev>"@, "ff status"@],
            ),
        },
{
    match head {
        HeadState::Branch { name, commit, .. } => Ok((name.clone(), commit.clone())),
        _ => Err(session_none()),
    }
}

/// The guards `ff done` takes before anything else, in order: a repository
/// with no working tree, a git operation half done, then no session
/// underfoot. When none applies, the session branch and its tip.
pub fn done_guard(bare: bool, in_progress: Option<InProgress>, head: &HeadState) -> (r: Result<(String, String)>)
    ensures
        bare ==> (r matches Err(e) && refusal(e, "repo/bare"@, "bare repository: nothing to "@ + "finish"@, seq![])),
        !bare && in_progress is Some ==> (r matches Err(e) && refusal(
            e,
            "repo/mid-operation"@,
            "a "@ + op_name(in_progress->0) + finish_text(Finish::Done),
            seq![],
        )),
        !bare && in_progress is None ==> match *head {
            HeadState::Branch { name, commit, .. } => r == Ok::<(String, String), Error>((name, commit)),
            _ => r matches Err(e) && refusal(
                e,
                "session/none"@,
                "no editing session is running"@,
                seq!["ff edit <rev>"@, "ff status"@],
            ),
        },
{
    if bare {
        return Err(bare_refusal("finish"));
    }
    if let Some(op) = in_progress {
        return Err(mid_operation(op, &Finish::Done));
    }
    session_of(head)
}

/// A commit landed on top of the session, which grows the branch, refuses
/// the landing: it would amend the anchor and leave that commit behind. A
/// rewrite of the anchor in place keeps its parents, so the first parents
/// of the session's tip and of the anchor are what is compared.
pub fn grown_refusal(
    session: &str,
    anchor_short: &str,
    tip_parent: Option<Oid>,
    anchor_parent: Option<Oid>,
) -> (r: Option<Error>)
    ensures
        r is None <==> match (tip_parent, anchor_parent) {
            (Some(a), Some(b)) => a@ == b@,
            (None, None) => true,
            _ => false,
        },
        r matches Some(e) ==> refusal(
            e,
            "session/moved"@,
            session@ + " has commits of its own since the session opened: finishing would amend "@
                + anchor_short@ + " and leave them behind"@,
            seq!["ff done --abandon"@, "ff undo"@],
        ),
{
    let same = match (tip_parent, anchor_parent) {
        (Some(a), Some(b)) => a.same(&b),
        (None, None) => true,
        _ => false,
    };
    if same {
        None
    } else {
        let a = crate::text::concat(session, " has commits of its own since the session opened: finishing would amend ");
        let b = crate::text::concat(a.as_str(), anchor_short);
        let m = crate::text::concat(b.as_str(), " and leave them behind");
        Some(Error::coded("session/moved", m.as_str(), exits2("ff done --abandon", "ff undo")))
    }
}

/// The refusal when the branch the session replays onto is gone.
pub fn onto_gone(onto: &str) -> (e: Error)
    ensures
        refusal(
            e,
            "branch/not-found"@,
            onto@ + ", the branch this session replays onto, no longer exists"@,
            seq!["ff switch <branch>"@],
        ),
{
    let m = crate::text::concat(onto, ", the branch this session replays onto, no longer exists");
    let mut v: Vec<String> = Vec::new();
    v.push(crate::text::owned("ff switch <branch>"));
    proof {
        assert(string_views(v@) =~= seq!["ff switch <branch>"@]);
    }
    Error::coded("branch/not-found", m.as_str(), v)
}

/// The edited commit must still be in the history of the branch it lands
/// on: it is exactly when it is among its own merge bases with that
/// branch's tip (`bases`).
pub fn history_refusal(anchor: &Oid, bases: &Vec<Oid>, anchor_short: &str, subject: &str, onto: &str) -> (r: Option<Error>)
    ensures
        r is None <==> exists|i: int| 0 <= i < bases@.len() && bases@[i]@ == anchor@,
        r matches Some(e) ==> refusal(
            e,
            "session/unreachable"@,
            anchor_short@ + " \""@ + subject@ + "\" is no longer in "@ + onto@
                + "'s history: this session has nothing to land onto"@,
            seq!["ff done --abandon"@, "ff log"@],
        ),
{
    let mut i: usize = 0;
    while i < bases.len()
        invariant
            i <= bases@.len(),
            forall|j: int| 0 <= j < i ==> bases@[j]@ != anchor@,
        decreases bases.len() - i,
    {
        if bases[i].same(anchor) {
            return None;
        }
        i += 1;
    }
    let a = crate::text::concat(anchor_short, " \"");
    let b = crate::text::concat(a.as_str(), subject);
    let c = crate::text::concat(b.as_str(), "\" is no longer in ");
    let d = crate::text::concat(c.as_str(), onto);
    let m = crate::text::concat(d.as_str(), "'s history: this session has nothing to land onto");
    Some(Error::coded("session/unreachable", m.as_str(), exits2("ff done --abandon", "ff log")))
}

/// Whether the session has nothing to land: the tree it assembled is the
/// anchor's own, and no reword landed on its tip.
pub fn nothing_to_land(assembled: &Oid, anchor_tree: &Oid, reworded: bool) -> (r: bool)
    ensures
        r == (assembled@ == anchor_tree@ && !reworded),
{
    assembled.same(anchor_tree) && !reworded
}

/// The hold a conflicting landing records on the session branch, and the
/// summary of the operation that records it.
pub fn landing_hold(session: &str, at: At, paths: Vec<String>, now: i64) -> (r: (Held, String))
    ensures
        r.0.intent matches Intent::Done { session: s } && s@ == session@,
        r.0.at == at,
        r.0.paths == paths,
        r.0.time == now,
        r.1@ == "hold done of "@ + session@,
{
    let held = Held { intent: Intent::Done { session: crate::text::owned(session) }, at, paths, time: now };
    (held, crate::text::concat("hold done of ", session))
}

/// Whether a transition names the session branch.
pub open spec fn not_session(t: RefTransition, session: Seq<char>) -> bool {
    t.name@ != "refs/heads/"@ + session
}

/// The heads the landing's rewrite carried, without the session branch,
/// whose own transition is its deletion.
pub fn landing_carried(carried: Vec<RefTransition>, session: &str) -> (r: Vec<RefTransition>)
    ensures
        r@ == carried@.filter(|t: RefTransition| not_session(t, session@)),
{
    let session_ref = crate::branch::heads_ref(session);
    let ghost c0 = carried@;
    let count: usize = carried.len();
    let mut rest = carried;
    let mut out: Vec<RefTransition> = Vec::new();
    let mut k: usize = 0;
    proof {
        assert(c0.take(0) =~= Seq::<RefTransition>::empty());
        assert(c0.take(0).filter(|t: RefTransition| not_session(t, session@)) =~= Seq::<RefTransition>::empty());
    }
    while rest.len() > 0
        invariant
            k <= c0.len(),
            c0.len() == count,
            rest@ == c0.skip(k as int),
            session_ref@ == "refs/heads/"@ + session@,
            out@ == c0.take(k as int).filter(|t: RefTransition| not_session(t, session@)),
        decreases rest.len(),
    {
        proof {
            assert(k < c0.len());
            assert(c0.skip(k as int)[0] == c0[k as int]);
            assert(c0.take(k + 1) =~= c0.take(k as int).push(c0[k as int]));
            c0.take(k as int).lemma_filter_push(c0[k as int], |t: RefTransition| not_session(t, session@));
        }
        let t = rest.remove(0);
        proof {
            assert(rest@ =~= c0.skip(k + 1));
        }
        if !crate::text::str_eq(t.name.as_str(), session_ref.as_str()) {
            out.push(t);
        }
        k += 1;
    }
    proof {
        assert(c0.take(c0.len() as int) =~= c0);
    }
    out
}

/// What the amended commit became: the rewrite's new id for the anchor;
/// nothing when the rewrite dropped it; the anchor itself when there was no
/// rewrite, since a session that changed nothing dropped nothing. An anchor
/// the rewrite neither rewrote nor dropped is an ordering fault.
pub fn amended_of(planned: bool, rewrites: &Vec<Rewrite>, dropped: &Vec<Oid>, anchor: &Oid) -> (r: Result<Option<Oid>>)
    ensures
        !planned ==> r == Ok::<Option<Oid>, Error>(Some(*anchor)),
        planned ==> match r {
            Ok(Some(n)) => exists|i: int|
                0 <= i < rewrites@.len() && rewrites@[i].old@ == anchor@ && rewrites@[i].new == n
                    && forall|j: int| 0 <= j < i ==> rewrites@[j].old@ != anchor@,
            Ok(None) => (forall|i: int| 0 <= i < rewrites@.len() ==> rewrites@[i].old@ != anchor@)
                && exists|i: int| 0 <= i < dropped@.len() && dropped@[i]@ == anchor@,
            Err(e) => (forall|i: int| 0 <= i < rewrites@.len() ==> rewrites@[i].old@ != anchor@)
                && (forall|i: int| 0 <= i < dropped@.len() ==> dropped@[i]@ != anchor@)
                && (e matches Error::Repo(m) && m@ == "the session's commit was not in the rewrite plan"@),
        },
{
    if !planned {
        return Ok(Some(*anchor));
    }
    let mut i: usize = 0;
    while i < rewrites.len()
        invariant
            planned,
            i <= rewrites@.len(),
            forall|j: int| 0 <= j < i ==> rewrites@[j].old@ != anchor@,
        decreases rewrites.len() - i,
    {
        if rewrites[i].old.same(anchor) {
            return Ok(Some(rewrites[i].new));
        }
        i += 1;
    }
    let mut i: usize = 0;
    while i < dropped.len()
        invariant
            planned,
            forall|j: int| 0 <= j < rewrites@.len() ==> rewrites@[j].old@ != anchor@,
            i <= dropped@.len(),
            forall|j: int| 0 <= j < i ==> dropped@[j]@ != anchor@,
        decreases dropped.len() - i,
    {
        if dropped[i].same(anchor) {
            return Ok(None);
        }
        i += 1;
    }
    Err(Error::msg("the session's commit was not in the rewrite plan"))
}

/// How many commits the landing replayed: the rewrites, less the anchor's
/// own amend when the anchor survived it.
pub fn replayed_of(rewrites: usize, amended: bool) -> (r: usize)
    ensures
        r == if amended && rewrites > 0 { rewrites - 1 } else { rewrites as int },
{
    if amended { rewrites.saturating_sub(1) } else { rewrites }
}

/// The summary of the operation that ends a session.
pub fn done_summary(abandon: bool, anchor_short: &str, onto: &str, moved: usize) -> (r: String)
    ensures
        r@ == if abandon {
            "done --abandon: "@ + anchor_short@ + " on "@ + onto@
        } else if moved == 0 {
            "done: "@ + anchor_short@ + " on "@ + onto@
        } else {
            "done: "@ + anchor_short@ + " on "@ + onto@ + ", and "@ + decimal(moved as nat) + " above it"@
        },
{
    let head = if abandon { "done --abandon: " } else { "done: " };
    let a = crate::text::concat(head, anchor_short);
    let b = crate::text::concat(a.as_str(), " on ");
    let c = crate::text::concat(b.as_str(), onto);
    if abandon || moved == 0 {
        c
    } else {
        let n = crate::text::decimal_string(moved as u64);
        let d = crate::text::concat(c.as_str(), ", and ");
        let e = crate::text::concat(d.as_str(), n.as_str());
        crate::text::concat(e.as_str(), " above it")
    }
}

/// The post-landing world the operation records as planned: HEAD on the
/// branch landed onto, the session branch gone, and each carried head at
/// its new tip.
pub fn plan_done_table(table: &mut RefsTable, onto: &str, session: &str, carried: &Vec<RefTransition>)
    requires
        old(table).wf(),
    ensures
        final(table).wf(),
        final(table).head@ == "ref:"@ + ("refs/heads/"@ + onto@),
        final(table).map() == crate::fold::carried_over(
            old(table).map().remove("refs/heads/"@ + session@),
            carried@,
        ),
{
    let onto_ref = crate::branch::heads_ref(onto);
    table.head = crate::text::concat("ref:", onto_ref.as_str());
    let session_ref = crate::branch::heads_ref(session);
    table.remove(session_ref.as_str());
    let ghost m0 = table.map();
    let ghost h0 = table.head;
    let mut k: usize = 0;
    while k < carried.len()
        invariant
            k <= carried@.len(),
            table.wf(),
            table.head == h0,
            table.map() == crate::fold::carried_over(m0, carried@.take(k as int)),
        decreases carried.len() - k,
    {
        proof {
            assert(carried@.take(k + 1).drop_last() =~= carried@.take(k as int));
            assert(carried@.take(k + 1).last() == carried@[k as int]);
        }
        match &carried[k].new {
            Some(n) => {
                table.insert(carried[k].name.as_str(), n.as_str());
            },
            None => {},
        }
        k += 1;
    }
    proof {
        assert(carried@.take(carried@.len() as int) =~= carried@);
    }
}

/// The ref transitions the landing records: the carried heads, then the
/// session branch's deletion from its tip.
pub fn done_transitions(carried: Vec<RefTransition>, session: &str, session_tip: &Oid) -> (r: Vec<RefTransition>)
    ensures
        r@.len() == carried@.len() + 1,
        r@.drop_last() == carried@,
        r@.last().name@ == "refs/heads/"@ + session@,
        r@.last().old matches Some(o) && o@ == crate::hex::hex_of(session_tip@),
        r@.last().new is None,
{
    let mut r = carried;
    let ghost c0 = r@;
    r.push(RefTransition { name: crate::branch::heads_ref(session), old: Some(session_tip.to_hex()), new: None });
    proof {
        assert(r@.drop_last() =~= c0);
    }
    r
}

/// What the landing keeps reachable: every rewritten commit, the session's
/// tip, the landing branch's old tip, and the open commit an abandon left.
pub fn done_pins(rewrites: &Vec<Rewrite>, session_tip: Oid, onto_tip: Oid, left: Option<Oid>) -> (r: Vec<Oid>)
    ensures
        r@ == rewritten(rewrites@) + seq![session_tip, onto_tip] + match left {
            Some(l) => seq![l],
            None => Seq::<Oid>::empty(),
        },
{
    let mut r: Vec<Oid> = Vec::new();
    let mut k: usize = 0;
    while k < rewrites.len()
        invariant
            k <= rewrites@.len(),
            r@ == rewritten(rewrites@.take(k as int)),
        decreases rewrites.len() - k,
    {
        r.push(rewrites[k].new);
        proof {
            assert(rewritten(rewrites@.take(k + 1)) =~= rewritten(rewrites@.take(k as int)).push(rewrites@[k as int].new));
        }
        k += 1;
    }
    proof {
        assert(rewrites@.take(rewrites@.len() as int) =~= rewrites@);
    }
    let ghost r0 = r@;
    r.push(session_tip);
    r.push(onto_tip);
    match left {
        Some(l) => {
            r.push(l);
            assert(r@ =~= r0 + seq![session_tip, onto_tip] + seq![l]);
        },
        None => {
            assert(r@ =~= r0 + seq![session_tip, onto_tip] + Seq::<Oid>::empty());
        },
    }
    r
}

/// A branch's name as a report shows it: its short name for a branch, the
/// full name otherwise.
pub open spec fn short_ref(name: Seq<char>) -> Seq<char> {
    if "refs/heads/"@.is_prefix_of(name) { name.skip("refs/heads/"@.len() as int) } else { name }
}

/// The branches the landing moved besides the one it landed on.
pub open spec fn moved_besides(carried: Seq<RefTransition>, onto_ref: Seq<char>) -> Seq<Seq<char>> {
    carried.filter(|t: RefTransition| t.name@ != onto_ref).map_values(|t: RefTransition| short_ref(t.name@))
}

/// The report's list of the other branches the landing carried, by short
/// name, in the carried order.
pub fn moved_branches(carried: &Vec<RefTransition>, onto_ref: &str) -> (r: Vec<String>)
    ensures
        string_views(r@) == moved_besides(carried@, onto_ref@),
{
    let mut out: Vec<String> = Vec::new();
    let mut k: usize = 0;
    while k < carried.len()
        invariant
            k <= carried@.len(),
            string_views(out@) == moved_besides(carried@.take(k as int), onto_ref@),
        decreases carried.len() - k,
    {
        let ghost before = string_views(out@);
        proof {
            assert(carried@.take(k + 1) =~= carried@.take(k as int).push(carried@[k as int]));
            carried@.take(k as int).lemma_filter_push(carried@[k as int], |t: RefTransition| t.name@ != onto_ref@);
        }
        if !crate::text::str_eq(carried[k].name.as_str(), onto_ref) {
            let n = match crate::text::strip_prefix(carried[k].name.as_str(), "refs/heads/") {
                Some(short) => short,
                None => carried[k].name.clone(),
            };
            out.push(n);
            proof {
                let f = carried@.take(k as int).filter(|t: RefTransition| t.name@ != onto_ref@);
                assert(f.push(carried@[k as int]).map_values(|t: RefTransition| short_ref(t.name@))
                    =~= f.map_values(|t: RefTransition| short_ref(t.name@)).push(short_ref(carried@[k as int].name@)));
                assert(string_views(out@) =~= before.push(short_ref(carried@[k as int].name@)));
            }
        }
        k += 1;
    }
    proof {
        assert(carried@.take(carried@.len() as int) =~= carried@);
    }
    out
}

/// The files the landing wrote: the worktree's transition, and what the
/// arrival restored.
pub fn landed_files(files: usize, arrival: &ArrivalReport) -> (r: usize)
    requires
        arrival matches ArrivalReport::Restored { files: f, .. } ==> files + f@.len() <= usize::MAX,
    ensures
        r == match *arrival {
            ArrivalReport::Restored { files: f, .. } => files + f@.len(),
            _ => files as int,
        },
{
    match arrival {
        ArrivalReport::Restored { files: f, .. } => files + f.len(),
        _ => files,
    }
}


/// The refusal when the conflicts a resolution was given are no longer the
/// repository's.
pub fn held_moved(branch: &str) -> (e: Error)
    ensures
        refusal(
            e,
            "held/moved"@,
            "the repository changed while "@ + branch@
                + " was resolving: these conflicts are not the ones you were given"@,
            seq!["ff status"@, "ff explain held/moved"@, "ff done --abandon"@, "ff resolve --abandon"@],
        ),
{
    let a = crate::text::concat("the repository changed while ", branch);
    let m = crate::text::concat(a.as_str(), " was resolving: these conflicts are not the ones you were given");
    let mut v: Vec<String> = Vec::new();
    v.push(crate::text::owned("ff status"));
    v.push(crate::text::owned("ff explain held/moved"));
    v.push(crate::text::owned("ff done --abandon"));
    v.push(crate::text::owned("ff resolve --abandon"));
    proof {
        assert(string_views(v@) =~= seq!["ff status"@, "ff explain held/moved"@, "ff done --abandon"@, "ff resolve --abandon"@]);
    }
    Error::coded("held/moved", m.as_str(), v)
}

/// One conflict region a chain leaves standing: the step that owns it and
/// the path it is in.
#[derive(Debug, Clone)]
pub struct Region {
    pub step: usize,
    pub path: String,
}

/// One step of a chain as a resolution round shows it: the commit it
/// replays, full hex, and its subject.
#[derive(Debug, Clone)]
pub struct ChainStep {
    pub old: String,
    pub subject: String,
}

/// A step a rolled round shows conflicts on, and the files they are in.
#[derive(Debug, Clone)]
pub struct RolledConflict {
    pub id: String,
    pub subject: String,
    pub paths: Vec<String>,
}

/// The paths of the regions a step owns.
pub open spec fn paths_at(regions: Seq<Region>, step: int) -> Set<Seq<char>> {
    Set::new(|p: Seq<char>| exists|i: int| 0 <= i < regions.len() && regions[i].step == step && #[trigger] regions[i].path@ == p)
}

/// The paths of every region.
pub open spec fn region_paths(regions: Seq<Region>) -> Set<Seq<char>> {
    Set::new(|p: Seq<char>| exists|i: int| 0 <= i < regions.len() && #[trigger] regions[i].path@ == p)
}

/// Strictly sorted texts.
pub open spec fn strictly_sorted(v: Seq<String>) -> bool {
    forall|i: int, j: int| 0 <= i < j < v.len() ==> crate::text::seq_lt(v[i]@, v[j]@)
}

/// The files a round's regions are in, sorted, each once.
pub fn region_files(regions: &Vec<Region>) -> (r: Vec<String>)
    ensures
        strictly_sorted(r@),
        string_views(r@).to_set() == region_paths(regions@),
{
    let mut all: Vec<String> = Vec::new();
    let mut k: usize = 0;
    while k < regions.len()
        invariant
            k <= regions@.len(),
            all@.len() == k,
            forall|j: int| 0 <= j < k ==> (#[trigger] all@[j])@ == regions@[j].path@,
        decreases regions.len() - k,
    {
        all.push(regions[k].path.clone());
        k += 1;
    }
    let ghost a = all@;
    let r = crate::text::sorted_unique(all);
    proof {
        assert forall|p: Seq<char>| string_views(r@).to_set().contains(p) <==> region_paths(regions@).contains(p) by {
            if string_views(a).contains(p) {
                let j = choose|j: int| 0 <= j < string_views(a).len() && string_views(a)[j] == p;
                assert(regions@[j].path@ == p);
            }
            if region_paths(regions@).contains(p) {
                let j = choose|j: int| 0 <= j < regions@.len() && regions@[j].path@ == p;
                assert(string_views(a)[j] == p);
            }
        }
        assert(string_views(r@).to_set() =~= region_paths(regions@));
    }
    r
}

/// The conflicts a rolled round shows over its first `n` steps: each step
/// that owns a region, in step order, with the set of its files.
pub open spec fn conflicts_upto(steps: Seq<ChainStep>, regions: Seq<Region>, n: int) -> Seq<(Seq<char>, Seq<char>, Set<Seq<char>>)>
    decreases n,
{
    if n <= 0 {
        Seq::empty()
    } else {
        let prev = conflicts_upto(steps, regions, n - 1);
        let ps = paths_at(regions, n - 1);
        if ps == Set::<Seq<char>>::empty() {
            prev
        } else {
            prev.push((steps[n - 1].old@, steps[n - 1].subject@, ps))
        }
    }
}

/// The conflicts a rolled round shows, per step: every step that owns a
/// region, in step order, with its files sorted and each named once.
pub fn round_conflicts(steps: &Vec<ChainStep>, regions: &Vec<Region>) -> (r: Vec<RolledConflict>)
    ensures
        r@.len() == conflicts_upto(steps@, regions@, steps@.len() as int).len(),
        forall|k: int| 0 <= k < r@.len() ==> {
            let c = conflicts_upto(steps@, regions@, steps@.len() as int)[k];
            &&& (#[trigger] r@[k]).id@ == c.0
            &&& r@[k].subject@ == c.1
            &&& string_views(r@[k].paths@).to_set() == c.2
            &&& strictly_sorted(r@[k].paths@)
        },
{
    let mut out: Vec<RolledConflict> = Vec::new();
    let mut idx: usize = 0;
    while idx < steps.len()
        invariant
            idx <= steps@.len(),
            out@.len() == conflicts_upto(steps@, regions@, idx as int).len(),
            forall|k: int| 0 <= k < out@.len() ==> {
                let c = conflicts_upto(steps@, regions@, idx as int)[k];
                &&& (#[trigger] out@[k]).id@ == c.0
                &&& out@[k].subject@ == c.1
                &&& string_views(out@[k].paths@).to_set() == c.2
                &&& strictly_sorted(out@[k].paths@)
            },
        decreases steps.len() - idx,
    {
        let mut mine: Vec<String> = Vec::new();
        let mut k: usize = 0;
        while k < regions.len()
            invariant
                k <= regions@.len(),
                forall|p: Seq<char>| string_views(mine@).contains(p) <==> exists|j: int|
                    0 <= j < k && regions@[j].step == idx && #[trigger] regions@[j].path@ == p,
            decreases regions.len() - k,
        {
            let ghost before = mine@;
            if regions[k].step == idx {
                mine.push(regions[k].path.clone());
                proof {
                    assert(string_views(mine@) =~= string_views(before).push(regions@[k as int].path@));
                }
            }
            proof {
                assert forall|p: Seq<char>| string_views(mine@).contains(p) <==> exists|j: int|
                    0 <= j < k + 1 && regions@[j].step == idx && #[trigger] regions@[j].path@ == p by {
                    if string_views(mine@).contains(p) {
                        let q = choose|q: int| 0 <= q < string_views(mine@).len() && string_views(mine@)[q] == p;
                        if q < before.len() {
                            assert(string_views(before)[q] == p);
                            assert(string_views(before).contains(p));
                        }
                    }
                    if exists|j: int| 0 <= j < k + 1 && regions@[j].step == idx && #[trigger] regions@[j].path@ == p {
                        let j = choose|j: int| 0 <= j < k + 1 && regions@[j].step == idx && #[trigger] regions@[j].path@ == p;
                        if j < k {
                            assert(string_views(before).contains(p));
                            let q = choose|q: int| 0 <= q < string_views(before).len() && string_views(before)[q] == p;
                            assert(string_views(mine@)[q] == p);
                        } else {
                            assert(string_views(mine@)[string_views(mine@).len() - 1] == p);
                        }
                    }
                }
            }
            k += 1;
        }
        let ghost m = mine@;
        let paths = crate::text::sorted_unique(mine);
        let ghost ps = paths_at(regions@, idx as int);
        proof {
            assert forall|p: Seq<char>| string_views(paths@).to_set().contains(p) <==> ps.contains(p) by {
                if ps.contains(p) {
                    let j = choose|j: int| 0 <= j < regions@.len() && regions@[j].step == idx && #[trigger] regions@[j].path@ == p;
                    assert(string_views(m).contains(p));
                }
            }
            assert(string_views(paths@).to_set() =~= ps);
        }
        let ghost prev = out@;
        if paths.len() > 0 {
            out.push(RolledConflict { id: steps[idx].old.clone(), subject: steps[idx].subject.clone(), paths });
            proof {
                assert(string_views(out@.last().paths@)[0] == out@.last().paths@[0]@);
                assert(ps.contains(out@.last().paths@[0]@));
                assert(ps != Set::<Seq<char>>::empty());
                assert(conflicts_upto(steps@, regions@, idx + 1) == conflicts_upto(steps@, regions@, idx as int).push((steps@[idx as int].old@, steps@[idx as int].subject@, ps)));
                assert forall|k: int| 0 <= k < out@.len() implies {
                    let c = conflicts_upto(steps@, regions@, idx + 1)[k];
                    &&& (#[trigger] out@[k]).id@ == c.0
                    &&& out@[k].subject@ == c.1
                    &&& string_views(out@[k].paths@).to_set() == c.2
                    &&& strictly_sorted(out@[k].paths@)
                } by {
                    if k < prev.len() {
                        assert(out@[k] == prev[k]);
                    }
                }
            }
        } else {
            proof {
                assert(string_views(paths@) =~= Seq::<Seq<char>>::empty());
                assert(ps =~= Set::<Seq<char>>::empty());
                assert(conflicts_upto(steps@, regions@, idx + 1) == conflicts_upto(steps@, regions@, idx as int));
            }
        }
        idx += 1;
    }
    out
}

/// Appends `x` unless it is already there.
pub open spec fn push_once(acc: Seq<Seq<char>>, x: Seq<char>) -> Seq<Seq<char>> {
    if acc.contains(x) { acc } else { acc.push(x) }
}

/// The subjects of the steps whose fixes a round keeps, oldest fix first,
/// each once: a fix is kept when its step comes before the conflict the
/// fixes uncovered.
pub open spec fn kept_subjects(steps: Seq<ChainStep>, fixes: Seq<usize>, next: int) -> Seq<Seq<char>>
    decreases fixes.len(),
{
    if fixes.len() == 0 {
        Seq::empty()
    } else {
        let prev = kept_subjects(steps, fixes.drop_last(), next);
        let s = fixes.last() as int;
        if s < next && s < steps.len() { push_once(prev, steps[s].subject@) } else { prev }
    }
}

/// The subjects a round shows again because their fixes follow the new
/// conflict, each once.
pub open spec fn reshown_subjects(steps: Seq<ChainStep>, fixes: Seq<usize>, next: int) -> Seq<Seq<char>>
    decreases fixes.len(),
{
    if fixes.len() == 0 {
        Seq::empty()
    } else {
        let prev = reshown_subjects(steps, fixes.drop_last(), next);
        let s = fixes.last() as int;
        if s >= next && s < steps.len() { push_once(prev, steps[s].subject@) } else { prev }
    }
}

fn contains_text(v: &Vec<String>, x: &str) -> (r: bool)
    ensures
        r == string_views(v@).contains(x@),
{
    crate::cascade::contains_str(v, x)
}

/// What a round that uncovered the next conflict, at step `next`, keeps and
/// shows again. `fixes` are the steps of this round's fixes, `all` the
/// steps of every fix so far. The fixes kept are those before `next`; the
/// rest are shown again, and so is the last step of a chain that ran whole
/// when the round's own regions reach it (`last_has_region`): that step's
/// fix is the working tree, never a stored one.
pub fn round_split(
    steps: &Vec<ChainStep>,
    fixes: &Vec<usize>,
    all: &Vec<usize>,
    next: usize,
    whole: bool,
    last_has_region: bool,
) -> (r: (Vec<String>, Vec<bool>, Vec<String>))
    ensures
        string_views(r.0@) == kept_subjects(steps@, fixes@, next as int),
        r.1@.len() == all@.len(),
        forall|i: int| 0 <= i < all@.len() ==> r.1@[i] == (all@[i] < next),
        string_views(r.2@) == if whole && steps@.len() > 0 && last_has_region {
            push_once(reshown_subjects(steps@, all@, next as int), steps@.last().subject@)
        } else {
            reshown_subjects(steps@, all@, next as int)
        },
{
    let mut fixed: Vec<String> = Vec::new();
    let mut k: usize = 0;
    while k < fixes.len()
        invariant
            k <= fixes@.len(),
            string_views(fixed@) == kept_subjects(steps@, fixes@.take(k as int), next as int),
        decreases fixes.len() - k,
    {
        proof {
            assert(fixes@.take(k + 1).drop_last() =~= fixes@.take(k as int));
        }
        let s = fixes[k];
        if s < next && s < steps.len() {
            if !contains_text(&fixed, steps[s].subject.as_str()) {
                let ghost before = string_views(fixed@);
                fixed.push(steps[s].subject.clone());
                proof {
                    assert(string_views(fixed@) =~= before.push(steps@[s as int].subject@));
                }
            }
        }
        k += 1;
    }
    proof {
        assert(fixes@.take(fixes@.len() as int) =~= fixes@);
    }
    let mut keep: Vec<bool> = Vec::new();
    let mut shown: Vec<String> = Vec::new();
    let mut k: usize = 0;
    while k < all.len()
        invariant
            k <= all@.len(),
            keep@.len() == k,
            forall|i: int| 0 <= i < k ==> keep@[i] == (all@[i] < next),
            string_views(shown@) == reshown_subjects(steps@, all@.take(k as int), next as int),
        decreases all.len() - k,
    {
        proof {
            assert(all@.take(k + 1).drop_last() =~= all@.take(k as int));
        }
        let s = all[k];
        keep.push(s < next);
        if s >= next && s < steps.len() {
            if !contains_text(&shown, steps[s].subject.as_str()) {
                let ghost before = string_views(shown@);
                shown.push(steps[s].subject.clone());
                proof {
                    assert(string_views(shown@) =~= before.push(steps@[s as int].subject@));
                }
            }
        }
        k += 1;
    }
    proof {
        assert(all@.take(all@.len() as int) =~= all@);
    }
    if whole && steps.len() > 0 && last_has_region {
        let last = steps.len() - 1;
        if !contains_text(&shown, steps[last].subject.as_str()) {
            let ghost before = string_views(shown@);
            shown.push(steps[last].subject.clone());
            proof {
                assert(string_views(shown@) =~= before.push(steps@[last as int].subject@));
            }
        }
    }
    (fixed, keep, shown)
}

/// The refusal of a round whose fixes left markers standing, naming the
/// files (sorted, each once) that still carry them.
pub fn unresolved_refusal(files: &Vec<String>) -> (e: Error)
    ensures
        refusal(
            e,
            "held/unresolved"@,
            crate::close::joined_paths(string_views(files@))
                + (if files@.len() == 1 { " still carries"@ } else { " still carry"@ })
                + " conflict markers: fix them, then ff done"@,
            seq!["ff status"@, "ff resolve --abandon"@],
        ),
{
    let joined = crate::close::join_paths(files);
    let verb = if files.len() == 1 { " still carries" } else { " still carry" };
    let a = crate::text::concat(joined.as_str(), verb);
    let m = crate::text::concat(a.as_str(), " conflict markers: fix them, then ff done");
    Error::coded("held/unresolved", m.as_str(), exits2("ff status", "ff resolve --abandon"))
}

/// Where a round of a resolution goes, in the order the verb decides it:
/// refused when the conflicts given are not the repository's any more,
/// refused while markers stand, rolled to the next round when the fixes
/// uncover another conflict, and landed otherwise.
#[derive(Debug, Clone, PartialEq, Eq)]
pub enum RoundVerdict {
    /// The re-run no longer gives the tree the reader was shown.
    Moved,
    /// These files still carry markers.
    Unresolved(Vec<String>),
    /// The fixes uncovered the conflict at this step.
    Roll(usize),
    /// Every fix is in: the stack lands.
    Land,
}

/// A round's verdict from what the verb read: whether the re-run gave the
/// tree the reader was shown, the files still carrying markers (sorted,
/// each once), and the next conflict of the re-run with the fixes folded
/// in.
pub fn round_verdict(shown_tree_matches: bool, unresolved: Vec<String>, next: Option<usize>) -> (r: RoundVerdict)
    ensures
        !shown_tree_matches ==> r == RoundVerdict::Moved,
        shown_tree_matches && unresolved@.len() > 0 ==> r == RoundVerdict::Unresolved(unresolved),
        shown_tree_matches && unresolved@.len() == 0 ==> match next {
            Some(n) => r == RoundVerdict::Roll(n),
            None => r == RoundVerdict::Land,
        },
{
    if !shown_tree_matches {
        return RoundVerdict::Moved;
    }
    if unresolved.len() > 0 {
        return RoundVerdict::Unresolved(unresolved);
    }
    match next {
        Some(n) => RoundVerdict::Roll(n),
        None => RoundVerdict::Land,
    }
}

/// The next conflict a round's fixes uncovered: the first step, the shown
/// one excepted, still carrying markers (`marked[i]` for step `i`), or one
/// past the last step when the re-run tangles, or none when the stack
/// lands.
pub fn next_conflict(marked: &Vec<bool>, tangled: bool) -> (r: Option<usize>)
    ensures
        match r {
            Some(i) => (i < marked@.len() && marked@[i as int] && forall|j: int| 0 <= j < i ==> !marked@[j])
                || (i == marked@.len() && tangled && forall|j: int| 0 <= j < marked@.len() ==> !marked@[j]),
            None => !tangled && forall|j: int| 0 <= j < marked@.len() ==> !marked@[j],
        },
{
    let mut i: usize = 0;
    while i < marked.len()
        invariant
            i <= marked@.len(),
            forall|j: int| 0 <= j < i ==> !marked@[j],
        decreases marked.len() - i,
    {
        if marked[i] {
            return Some(i);
        }
        i += 1;
    }
    if tangled { Some(marked.len()) } else { None }
}

/// The summary of the operation that rolls a resolution to its next round.
pub fn roll_summary(branch: &str, next: &str) -> (r: String)
    ensures
        r@ == "roll the resolution of "@ + branch@ + ": \""@ + next@ + "\" now conflicts"@,
{
    let a = crate::text::concat("roll the resolution of ", branch);
    let b = crate::text::concat(a.as_str(), ": \"");
    let c = crate::text::concat(b.as_str(), next);
    crate::text::concat(c.as_str(), "\" now conflicts")
}

/// A round's operation, write-ahead: the session ref moving from the tip
/// being left to the new marker, and both the session's and the
/// resolution's records with both sides; HEAD and the hold untouched.
pub fn roll_record(
    argv: Vec<String>,
    session: &str,
    session_tip: &Oid,
    new_marker: &Oid,
    old_session: Session,
    new_session: Session,
    branch: &str,
    resolve: Resolve,
    new_resolve: Resolve,
    next: &str,
    now: i64,
) -> (r: OpRecord)
    ensures
        r.kind == OpKind::Op,
        r.verb@ == "done"@,
        r.summary@ == "roll the resolution of "@ + branch@ + ": \""@ + next@ + "\" now conflicts"@,
        r.argv == argv,
        r.time == now,
        r.refs@.len() == 1,
        r.refs@[0].name@ == "refs/heads/"@ + session@,
        r.refs@[0].old matches Some(o) && o@ == crate::hex::hex_of(session_tip@),
        r.refs@[0].new matches Some(n) && n@ == crate::hex::hex_of(new_marker@),
        r.resolve_session matches Some(t) && t.branch@ == session@ && t.old == Some(old_session) && t.new == Some(new_session),
        r.resolving matches Some(t) && t.branch@ == branch@ && t.old == Some(resolve) && t.new == Some(new_resolve),
        r.head is None && r.held is None && r.stash@.len() == 0,
        r.branch is None && r.prev is None && r.undo_of is None && r.description is None,
{
    let summary = roll_summary(branch, next);
    let mut record = OpRecord::new(OpKind::Op, "done", summary.as_str(), now);
    record.argv = argv;
    let session_ref = crate::branch::heads_ref(session);
    record.refs.push(RefTransition { name: session_ref, old: Some(session_tip.to_hex()), new: Some(new_marker.to_hex()) });
    record.resolve_session = Some(SessionTransition {
        branch: crate::text::owned(session),
        old: Some(old_session),
        new: Some(new_session),
    });
    record.resolving = Some(ResolveTransition {
        branch: crate::text::owned(branch),
        old: Some(resolve),
        new: Some(new_resolve),
    });
    record
}

/// The message of a round's marker commit.
pub fn marker_message(verb: &str, branch: &str) -> (r: String)
    ensures
        r@ == "resolving the held "@ + verb@ + " on "@ + branch@,
{
    let a = crate::text::concat("resolving the held ", verb);
    let b = crate::text::concat(a.as_str(), " on ");
    crate::text::concat(b.as_str(), branch)
}

} // verus!
