//! Planning a cascade: the walk over every branch stacked above a branch
//! that moved, parent before child, and what each branch comes to.
//!
//! The walk is a state machine. It hands out one branch at a time; the
//! caller reads what the repository says of it and hands each answer back,
//! and the walk decides: skip it (another worktree stands on it, it already
//! holds a rewrite, it shares no history with its base, or its range holds
//! a merge), leave it unchanged (nothing of its own to replay), hold it (the
//! replay conflicts), or move it, which is the only thing that queues its
//! children. A stopped branch leaves its subtree alone, since that
//! subtree's base did not move.

use vstd::prelude::*;
use crate::cascade::{Stack, is_link, reaches, contains_str};
use crate::futures::At;
use crate::held::{Held, HeldTransition, Intent};
use crate::hex::hex_of;
use crate::journal::RefTransition;
use crate::linked::Holder;
use crate::model::{Dropped, HeldReport};
use crate::oid::Oid;
use crate::text::{seq_lt, string_views};

verus! {

/// One branch waiting its turn: the branch, the base it sits on, and where
/// that base stood before and after its move.
#[derive(Debug, Clone)]
pub struct CascadeStep {
    pub branch: String,
    pub base: String,
    pub base_old: Oid,
    pub base_new: Oid,
}

/// Why a branch was left where it stands.
#[derive(Debug, Clone, PartialEq, Eq)]
pub enum SkipReason {
    /// Another worktree stands on it, at this path.
    Worktree { path: String },
    /// It already holds a rewrite.
    AlreadyHeld,
    /// It shares no history with its base's new tip.
    Unrelated,
    /// Its range holds a merge, and replaying one is ambiguous.
    MergeInRange,
}

/// A branch the cascade skipped, and the branches above it it left alone.
#[derive(Debug, Clone)]
pub struct CascadeSkip {
    pub branch: String,
    pub base: String,
    pub reason: SkipReason,
    pub left_alone: Vec<String>,
}

/// A branch whose replay conflicts, held the way `ff restack` holds.
#[derive(Debug, Clone)]
pub struct CascadeHold {
    pub branch: String,
    pub base: String,
    pub report: HeldReport,
    pub left_alone: Vec<String>,
}

/// A branch the cascade replayed onto its base's new tip.
#[derive(Debug, Clone)]
pub struct CascadeMove {
    pub branch: String,
    pub base: String,
    pub old_tip: String,
    pub new_tip: String,
    pub replayed: usize,
    pub dropped: Vec<Dropped>,
    /// Other heads inside the branch's range, which stay where they stood.
    pub diverged: Vec<String>,
    pub published: usize,
    pub published_on: Option<String>,
}

/// What the cascade did to each branch it reached.
#[derive(Debug, Clone)]
pub struct Cascade {
    pub moved: Vec<CascadeMove>,
    pub held: Vec<CascadeHold>,
    pub skipped: Vec<CascadeSkip>,
    /// Branches with nothing of their own to replay.
    pub unchanged: Vec<String>,
}

/// One commit a replay rewrote.
#[derive(Debug, Clone, Copy)]
pub struct Rewrite {
    pub old: Oid,
    pub new: Oid,
}

/// The working tree's move, when HEAD's branch was one the cascade
/// replayed: the open change as it stood, the tip it now sits on, and the
/// tree the worktree will hold.
#[derive(Debug, Clone, Copy)]
pub struct HeadMove {
    pub open: Oid,
    pub new_tip: Oid,
    pub worktree: Oid,
}

/// A planned cascade: the report, and everything the triggering operation
/// folds into its own record so that one undo takes both back.
#[derive(Debug, Clone)]
pub struct CascadePlan {
    pub report: Cascade,
    /// One transition per branch that moved.
    pub carried: Vec<RefTransition>,
    pub rewrites: Vec<Rewrite>,
    pub dropped: Vec<Dropped>,
    /// One per branch that held.
    pub holds: Vec<HeldTransition>,
    /// The rewritten commits and every old tip, so undo finds them all.
    pub pins: Vec<Oid>,
    pub head: Option<HeadMove>,
}

/// The names of the branches that moved.
pub open spec fn move_names(c: Cascade) -> Seq<Seq<char>> {
    c.moved@.map_values(|m: CascadeMove| m.branch@)
}

/// The names of the branches that held.
pub open spec fn hold_names(c: Cascade) -> Seq<Seq<char>> {
    c.held@.map_values(|h: CascadeHold| h.branch@)
}

/// The names of the branches that were skipped.
pub open spec fn skip_names(c: Cascade) -> Seq<Seq<char>> {
    c.skipped@.map_values(|s: CascadeSkip| s.branch@)
}

/// Whether any of four lists of names holds `n`.
pub open spec fn in4(a: Seq<Seq<char>>, b: Seq<Seq<char>>, c: Seq<Seq<char>>, d: Seq<Seq<char>>, n: Seq<char>) -> bool {
    a.contains(n) || b.contains(n) || c.contains(n) || d.contains(n)
}

/// Four lists of names, none with a repeat and no two sharing a name.
pub open spec fn distinct4(a: Seq<Seq<char>>, b: Seq<Seq<char>>, c: Seq<Seq<char>>, d: Seq<Seq<char>>) -> bool {
    &&& a.no_duplicates()
    &&& b.no_duplicates()
    &&& c.no_duplicates()
    &&& d.no_duplicates()
    &&& forall|n: Seq<char>| #[trigger] a.contains(n) ==> !b.contains(n) && !c.contains(n) && !d.contains(n)
    &&& forall|n: Seq<char>| #[trigger] b.contains(n) ==> !c.contains(n) && !d.contains(n)
    &&& forall|n: Seq<char>| #[trigger] c.contains(n) ==> !d.contains(n)
}

/// Whether the report names `n` anywhere.
pub open spec fn in_report(c: Cascade, n: Seq<char>) -> bool {
    in4(move_names(c), hold_names(c), skip_names(c), string_views(c.unchanged@), n)
}

/// No branch is named twice, within a list or across two.
pub open spec fn report_distinct(c: Cascade) -> bool {
    distinct4(move_names(c), hold_names(c), skip_names(c), string_views(c.unchanged@))
}

/// The branches stacked above `branch`, strictly sorted: what a stopped
/// branch leaves alone.
pub open spec fn left_alone_ok(links: Seq<(Seq<char>, Seq<char>)>, branch: Seq<char>, l: Seq<String>) -> bool {
    &&& forall|i: int, j: int| 0 <= i < j < l.len() ==> seq_lt(l[i]@, l[j]@)
    &&& forall|n: Seq<char>| string_views(l).contains(n) <==> (n != branch && reaches(links, branch, n))
}

/// A base a branch may be examined against: the root, or a branch that
/// moved.
pub open spec fn base_moved(c: Cascade, root: Seq<char>, base: Seq<char>) -> bool {
    base == root || move_names(c).contains(base)
}

/// What the report says of a branch that was skipped just now, everything
/// else as it was.
pub open spec fn skipped_now(
    old: Cascade,
    new: Cascade,
    links: Seq<(Seq<char>, Seq<char>)>,
    s: CascadeStep,
    reason: SkipReason,
) -> bool {
    &&& new.moved@ == old.moved@
    &&& new.held@ == old.held@
    &&& new.unchanged@ == old.unchanged@
    &&& new.skipped@.len() == old.skipped@.len() + 1
    &&& new.skipped@.drop_last() == old.skipped@
    &&& new.skipped@.last().branch == s.branch
    &&& new.skipped@.last().base == s.base
    &&& new.skipped@.last().reason == reason
    &&& left_alone_ok(links, s.branch@, new.skipped@.last().left_alone@)
}

/// The report with a branch just now found to have nothing to replay.
pub open spec fn unchanged_now(old: Cascade, new: Cascade, s: CascadeStep) -> bool {
    &&& new.moved@ == old.moved@
    &&& new.held@ == old.held@
    &&& new.skipped@ == old.skipped@
    &&& new.unchanged@ == old.unchanged@.push(s.branch)
}

/// What the plan says of a branch held just now, everything else as it was.
pub open spec fn held_now(
    old: CascadePlan,
    new: CascadePlan,
    links: Seq<(Seq<char>, Seq<char>)>,
    s: CascadeStep,
    at: At,
    paths: Vec<String>,
    of: usize,
    now: i64,
) -> bool {
    &&& new.report.moved@ == old.report.moved@
    &&& new.report.skipped@ == old.report.skipped@
    &&& new.report.unchanged@ == old.report.unchanged@
    &&& new.report.held@.len() == old.report.held@.len() + 1
    &&& new.report.held@.drop_last() == old.report.held@
    &&& ({
        let h = new.report.held@.last();
        &&& h.branch == s.branch
        &&& h.base == s.base
        &&& h.report.verb@ == "restack"@
        &&& h.report.branch == s.branch
        &&& h.report.at == at
        &&& h.report.paths == paths
        &&& h.report.of == of
        &&& left_alone_ok(links, s.branch@, h.left_alone@)
    })
    &&& new.holds@.len() == old.holds@.len() + 1
    &&& new.holds@.drop_last() == old.holds@
    &&& ({
        let t = new.holds@.last();
        &&& t.branch == s.branch
        &&& t.old is None
        &&& t.new matches Some(hd) && hd.intent matches Intent::Restack { branch: b, onto: o }
            && b == s.branch && o@ == "refs/heads/"@ + s.base@ && hd.at == at && hd.paths@ == paths@
            && hd.time == now
    })
    &&& new.carried == old.carried
    &&& new.rewrites == old.rewrites
    &&& new.dropped == old.dropped
    &&& new.pins == old.pins
    &&& new.head == old.head
}

/// The new ids of a list of rewrites.
pub open spec fn rewritten(r: Seq<Rewrite>) -> Seq<Oid> {
    r.map_values(|x: Rewrite| x.new)
}

/// What the plan says of a branch moved just now, everything else as it
/// was.
pub open spec fn moved_now(
    old: CascadePlan,
    new: CascadePlan,
    s: CascadeStep,
    tip: Oid,
    new_tip: Oid,
    rewrites: Seq<Rewrite>,
    dropped: Seq<Dropped>,
    diverged: Seq<String>,
    published: usize,
    published_on: Option<String>,
    head: Option<HeadMove>,
) -> bool {
    &&& new.report.held@ == old.report.held@
    &&& new.report.skipped@ == old.report.skipped@
    &&& new.report.unchanged@ == old.report.unchanged@
    &&& new.holds == old.holds
    &&& new.report.moved@.len() == old.report.moved@.len() + 1
    &&& new.report.moved@.drop_last() == old.report.moved@
    &&& ({
        let m = new.report.moved@.last();
        &&& m.branch == s.branch
        &&& m.base == s.base
        &&& m.old_tip@ == hex_of(tip@)
        &&& m.new_tip@ == hex_of(new_tip@)
        &&& m.replayed == rewrites.len()
        &&& m.dropped@ == dropped
        &&& m.diverged@ == diverged
        &&& m.published == published
        &&& m.published_on == published_on
    })
    &&& new.carried@.len() == old.carried@.len() + 1
    &&& new.carried@.drop_last() == old.carried@
    &&& ({
        let t = new.carried@.last();
        &&& t.name@ == "refs/heads/"@ + s.branch@
        &&& t.old matches Some(o) && o@ == hex_of(tip@)
        &&& t.new matches Some(n) && n@ == hex_of(new_tip@)
    })
    &&& new.rewrites@ == old.rewrites@ + rewrites
    &&& new.dropped@ == old.dropped@ + dropped
    &&& new.pins@ == old.pins@ + rewritten(rewrites).push(tip)
    &&& new.head == if head is Some { head } else { old.head }
}

/// Where the first worktree standing on `branch` is checked out.
fn holder_path(holders: &Vec<Holder>, branch: &str) -> (r: Option<String>)
    ensures
        (r is Some) == (exists|i: int| 0 <= i < holders@.len() && holders@[i].branch@ == branch@),
        r matches Some(p) ==> exists|i: int|
            0 <= i < holders@.len() && holders@[i].branch@ == branch@ && p == holders@[i].path
                && forall|j: int| 0 <= j < i ==> holders@[j].branch@ != branch@,
{
    let mut i: usize = 0;
    while i < holders.len()
        invariant
            i <= holders@.len(),
            forall|j: int| 0 <= j < i ==> holders@[j].branch@ != branch@,
        decreases holders.len() - i,
    {
        if crate::text::str_eq(holders[i].branch.as_str(), branch) {
            return Some(holders[i].path.clone());
        }
        i += 1;
    }
    None
}

/// A copy of a step.
fn copy_step(s: &CascadeStep) -> (r: CascadeStep)
    ensures
        r == *s,
{
    CascadeStep {
        branch: s.branch.clone(),
        base: s.base.clone(),
        base_old: s.base_old,
        base_new: s.base_new,
    }
}

/// A copy of a list of strings.
fn copy_strings(v: &Vec<String>) -> (r: Vec<String>)
    ensures
        r@ == v@,
{
    let mut r: Vec<String> = Vec::new();
    let mut i: usize = 0;
    while i < v.len()
        invariant
            i <= v@.len(),
            r@ == v@.take(i as int),
        decreases v.len() - i,
    {
        r.push(v[i].clone());
        proof {
            assert(r@ =~= v@.take(i + 1));
        }
        i += 1;
    }
    proof {
        assert(v@.take(v@.len() as int) =~= v@);
    }
    r
}

/// A copy of a conflict's place.
fn copy_at(a: &At) -> (r: At)
    ensures
        r == *a,
{
    match a {
        At::Commit { id, subject } => At::Commit { id: id.clone(), subject: subject.clone() },
        At::OpenChange => At::OpenChange,
    }
}

/// A copy of a list of dropped commits.
fn copy_dropped(v: &Vec<Dropped>) -> (r: Vec<Dropped>)
    ensures
        r@ == v@,
{
    let mut r: Vec<Dropped> = Vec::new();
    let mut i: usize = 0;
    while i < v.len()
        invariant
            i <= v@.len(),
            r@ == v@.take(i as int),
        decreases v.len() - i,
    {
        r.push(Dropped { old: v[i].old.clone() });
        proof {
            assert(r@ =~= v@.take(i + 1));
        }
        i += 1;
    }
    proof {
        assert(v@.take(v@.len() as int) =~= v@);
    }
    r
}

fn contains_oid(v: &Vec<Oid>, x: &Oid) -> (r: bool)
    ensures
        r == exists|i: int| 0 <= i < v@.len() && v@[i]@ == x@,
{
    let mut i: usize = 0;
    while i < v.len()
        invariant
            i <= v@.len(),
            forall|j: int| 0 <= j < i ==> v@[j]@ != x@,
        decreases v.len() - i,
    {
        if v[i].same(x) {
            return true;
        }
        i += 1;
    }
    false
}

/// Pushing a new name onto a list without repeats leaves none.
proof fn lemma_push_fresh(s: Seq<Seq<char>>, x: Seq<char>)
    requires
        s.no_duplicates(),
        !s.contains(x),
    ensures
        s.push(x).no_duplicates(),
        forall|y: Seq<char>| #[trigger] s.push(x).contains(y) <==> (s.contains(y) || y == x),
{
    let t = s.push(x);
    assert forall|i: int, j: int| 0 <= i < t.len() && 0 <= j < t.len() && i != j implies t[i]
        != t[j] by {
        if i < s.len() && j < s.len() {
            assert(t[i] == s[i] && t[j] == s[j]);
        } else if i < s.len() {
            assert(t[i] == s[i] && t[j] == x);
        } else if j < s.len() {
            assert(t[j] == s[j] && t[i] == x);
        }
    }
    assert forall|y: Seq<char>| #[trigger] t.contains(y) <==> (s.contains(y) || y == x) by {
        if t.contains(y) {
            let k = choose|k: int| 0 <= k < t.len() && t[k] == y;
            if k < s.len() {
                assert(s[k] == y);
            }
        }
        if s.contains(y) {
            let k = choose|k: int| 0 <= k < s.len() && s[k] == y;
            assert(t[k] == y);
        }
        if y == x {
            assert(t[s.len() as int] == y);
        }
    }
}

/// Adding a name the four lists do not hold, to one of them, keeps them
/// distinct, and adds that name and no other.
proof fn lemma_push4(
    a: Seq<Seq<char>>,
    b: Seq<Seq<char>>,
    c: Seq<Seq<char>>,
    d: Seq<Seq<char>>,
    x: Seq<char>,
    p: int,
)
    requires
        distinct4(a, b, c, d),
        !in4(a, b, c, d, x),
        0 <= p < 4,
    ensures
        ({
            let a2 = if p == 0 { a.push(x) } else { a };
            let b2 = if p == 1 { b.push(x) } else { b };
            let c2 = if p == 2 { c.push(x) } else { c };
            let d2 = if p == 3 { d.push(x) } else { d };
            &&& distinct4(a2, b2, c2, d2)
            &&& forall|n: Seq<char>| #[trigger] in4(a2, b2, c2, d2, n) <==> (in4(a, b, c, d, n) || n == x)
        }),
{
    lemma_push_fresh(a, x);
    lemma_push_fresh(b, x);
    lemma_push_fresh(c, x);
    lemma_push_fresh(d, x);
}

/// The walk over a cascade.
pub struct CascadeWalk {
    stack: Stack,
    holders: Vec<Holder>,
    root: String,
    now: i64,
    visited: Vec<String>,
    queue: Vec<CascadeStep>,
    current: Option<CascadeStep>,
    plan: CascadePlan,
}

impl CascadeWalk {
    /// The stack the walk reads.
    pub closed spec fn links(&self) -> Seq<(Seq<char>, Seq<char>)> {
        self.stack@
    }

    /// The branch whose move started the cascade.
    pub closed spec fn root_name(&self) -> Seq<char> {
        self.root@
    }

    /// What the walk has decided so far.
    pub closed spec fn report(&self) -> Cascade {
        self.plan.report
    }

    /// The branch handed out and not yet decided.
    pub closed spec fn pending(&self) -> Option<CascadeStep> {
        self.current
    }

    /// The plan as it stands.
    pub closed spec fn plan_view(&self) -> CascadePlan {
        self.plan
    }

    /// The branches waiting their turn.
    pub closed spec fn queued(&self) -> Seq<CascadeStep> {
        self.queue@
    }

    /// The time the holds are stamped with.
    pub closed spec fn now_view(&self) -> i64 {
        self.now
    }

    /// The other worktrees and the branches they stand on.
    pub closed spec fn holders_view(&self) -> Seq<Holder> {
        self.holders@
    }

    /// Whether another worktree stands on `n`.
    pub open spec fn held_elsewhere(&self, n: Seq<char>) -> bool {
        exists|i: int| 0 <= i < self.holders_view().len() && (#[trigger] self.holders_view()[i]).branch@ == n
    }

    /// Everything but the report and the pending branch is as it was.
    pub open spec fn same_walk(&self, other: &CascadeWalk) -> bool {
        &&& self.holders_view() == other.holders_view()
        &&& self.links() == other.links()
        &&& self.root_name() == other.root_name()
        &&& self.now_view() == other.now_view()
    }

    /// A step the walk may take: the branch sits directly on its base, and
    /// that base is the root or a branch that moved.
    closed spec fn step_ok(&self, s: CascadeStep) -> bool {
        &&& is_link(self.stack@, s.branch@, s.base@)
        &&& base_moved(self.plan.report, self.root@, s.base@)
    }

    /// The branches the walk has examined: the root, and every branch it
    /// has handed out or settled on its own.
    pub closed spec fn visited_names(&self) -> Seq<Seq<char>> {
        string_views(self.visited@)
    }

    /// Every branch sitting directly on the root or on a branch that moved
    /// has been examined or waits its turn.
    pub closed spec fn covered(&self) -> bool {
        forall|c: Seq<char>, b: Seq<char>| #[trigger] is_link(self.stack@, c, b) && base_moved(self.plan.report, self.root@, b)
            ==> string_views(self.visited@).contains(c)
                || exists|k: int| 0 <= k < self.queue@.len() && (#[trigger] self.queue@[k]).branch@ == c
    }

    /// Coverage survives a change that moves no branch, visits none and
    /// queues none.
    proof fn lemma_covered_same(a: CascadeWalk, b: CascadeWalk)
        requires
            a.covered(),
            a.stack@ == b.stack@,
            a.root@ == b.root@,
            move_names(a.plan.report) == move_names(b.plan.report),
            a.visited@ == b.visited@,
            a.queue@ == b.queue@,
        ensures
            b.covered(),
    {
        assert forall|c: Seq<char>, x: Seq<char>| #[trigger] is_link(b.stack@, c, x) && base_moved(b.plan.report, b.root@, x)
            implies string_views(b.visited@).contains(c)
                || exists|k: int| 0 <= k < b.queue@.len() && (#[trigger] b.queue@[k]).branch@ == c by {
            assert(is_link(a.stack@, c, x) && base_moved(a.plan.report, a.root@, x));
        }
    }

    /// Coverage survives taking the first queued branch off the queue once
    /// that branch is examined.
    proof fn lemma_covered_pop(a: CascadeWalk, b: CascadeWalk)
        requires
            a.covered(),
            a.stack@ == b.stack@,
            a.root@ == b.root@,
            move_names(a.plan.report) == move_names(b.plan.report),
            a.queue@.len() > 0,
            b.queue@ == a.queue@.drop_first(),
            string_views(b.visited@).contains(a.queue@[0].branch@),
            forall|n: Seq<char>| string_views(a.visited@).contains(n) ==> string_views(b.visited@).contains(n),
        ensures
            b.covered(),
    {
        assert forall|c: Seq<char>, x: Seq<char>| #[trigger] is_link(b.stack@, c, x) && base_moved(b.plan.report, b.root@, x)
            implies string_views(b.visited@).contains(c)
                || exists|k: int| 0 <= k < b.queue@.len() && (#[trigger] b.queue@[k]).branch@ == c by {
            assert(is_link(a.stack@, c, x) && base_moved(a.plan.report, a.root@, x));
            if !string_views(a.visited@).contains(c) {
                let k = choose|k: int| 0 <= k < a.queue@.len() && (#[trigger] a.queue@[k]).branch@ == c;
                if k > 0 {
                    assert(b.queue@[k - 1] == a.queue@[k]);
                }
            }
        }
    }

    /// The walk's invariant.
    pub closed spec fn wf(&self) -> bool {
        &&& self.covered()
        &&& string_views(self.visited@).no_duplicates()
        &&& self.visited@.len() > 0
        &&& self.visited@[0]@ == self.root@
        &&& report_distinct(self.plan.report)
        &&& forall|n: Seq<char>| #[trigger] in_report(self.plan.report, n) ==> string_views(
            self.visited@,
        ).contains(n) && n != self.root@
        &&& forall|i: int| 0 <= i < self.queue@.len() ==> self.step_ok(#[trigger] self.queue@[i])
        &&& self.current matches Some(s) ==> {
            &&& string_views(self.visited@).contains(s.branch@)
            &&& !in_report(self.plan.report, s.branch@)
            &&& s.branch@ != self.root@
            &&& self.step_ok(s)
        }
        &&& forall|i: int| 0 <= i < self.plan.report.moved@.len() ==> {
            let m = #[trigger] self.plan.report.moved@[i];
            is_link(self.stack@, m.branch@, m.base@) && base_moved(
                self.plan.report,
                self.root@,
                m.base@,
            )
        }
        &&& forall|i: int| 0 <= i < self.plan.report.held@.len() ==> {
            let h = #[trigger] self.plan.report.held@[i];
            is_link(self.stack@, h.branch@, h.base@) && base_moved(
                self.plan.report,
                self.root@,
                h.base@,
            )
        }
        &&& forall|i: int| 0 <= i < self.plan.report.skipped@.len() ==> {
            let s = #[trigger] self.plan.report.skipped@[i];
            is_link(self.stack@, s.branch@, s.base@) && base_moved(
                self.plan.report,
                self.root@,
                s.base@,
            )
        }
    }

    /// Start a walk over the branches stacked above `root`, which moved
    /// from `root_old` to `root_new`. `holders` are the other worktrees and
    /// the branches they stand on; `now` stamps the holds.
    pub fn new(stack: Stack, holders: Vec<Holder>, root: &str, root_old: Oid, root_new: Oid, now: i64) -> (w: CascadeWalk)
        ensures
            w.wf(),
            w.links() == stack@,
            w.root_name() == root@,
            w.report().moved@.len() == 0,
            w.report().held@.len() == 0,
            w.report().skipped@.len() == 0,
            w.report().unchanged@.len() == 0,
            w.pending() is None,
    {
        let kids = stack.children(root);
        let mut queue: Vec<CascadeStep> = Vec::new();
        let mut i: usize = 0;
        while i < kids.len()
            invariant
                i <= kids@.len(),
                queue@.len() == i,
                forall|k: int| 0 <= k < i ==> (#[trigger] queue@[k]).branch == kids@[k],
                forall|k: int| 0 <= k < kids@.len() ==> is_link(stack@, #[trigger] kids@[k]@, root@),
                forall|k: int| 0 <= k < queue@.len() ==> is_link(stack@, #[trigger] queue@[k].branch@, queue@[k].base@) && queue@[k].base@ == root@,
            decreases kids.len() - i,
        {
            queue.push(CascadeStep {
                branch: kids[i].clone(),
                base: crate::text::owned(root),
                base_old: root_old,
                base_new: root_new,
            });
            i += 1;
        }
        let mut visited: Vec<String> = Vec::new();
        visited.push(crate::text::owned(root));
        let report = Cascade {
            moved: Vec::new(),
            held: Vec::new(),
            skipped: Vec::new(),
            unchanged: Vec::new(),
        };
        let plan = CascadePlan {
            report,
            carried: Vec::new(),
            rewrites: Vec::new(),
            dropped: Vec::new(),
            holds: Vec::new(),
            pins: Vec::new(),
            head: None,
        };
        let w = CascadeWalk {
            stack,
            holders,
            root: crate::text::owned(root),
            now,
            visited,
            queue,
            current: None,
            plan,
        };
        proof {
            assert(string_views(w.visited@) =~= seq![root@]);
            assert(move_names(w.plan.report) =~= Seq::<Seq<char>>::empty());
            assert(hold_names(w.plan.report) =~= Seq::<Seq<char>>::empty());
            assert(skip_names(w.plan.report) =~= Seq::<Seq<char>>::empty());
            assert(string_views(w.plan.report.unchanged@) =~= Seq::<Seq<char>>::empty());
            assert(string_views(w.visited@).no_duplicates());
            assert(w.visited@[0]@ == root@);
            assert(report_distinct(w.plan.report));
            assert forall|i: int| 0 <= i < w.queue@.len() implies w.step_ok(#[trigger] w.queue@[i]) by {
                assert(is_link(w.stack@, w.queue@[i].branch@, w.queue@[i].base@));
                assert(w.queue@[i].base@ == root@);
            }
            assert forall|c: Seq<char>, x: Seq<char>| #[trigger] is_link(w.stack@, c, x) && base_moved(w.plan.report, w.root@, x)
                implies string_views(w.visited@).contains(c)
                    || exists|k: int| 0 <= k < w.queue@.len() && (#[trigger] w.queue@[k]).branch@ == c by {
                assert(!move_names(w.plan.report).contains(x));
                assert(x == root@);
                assert(string_views(kids@).contains(c));
                let j = choose|j: int| 0 <= j < string_views(kids@).len() && string_views(kids@)[j] == c;
                assert(w.queue@[j].branch == kids@[j]);
            }
            assert forall|n: Seq<char>| !in_report(w.plan.report, n) by {
                assert(!move_names(w.plan.report).contains(n));
                assert(!hold_names(w.plan.report).contains(n));
                assert(!skip_names(w.plan.report).contains(n));
                assert(!string_views(w.plan.report.unchanged@).contains(n));
            }
        }
        w
    }

    /// Settle the pending branch as skipped for `reason`.
    fn skip_pending(&mut self, reason: SkipReason)
        requires
            old(self).wf(),
            old(self).pending() is Some,
        ensures
            final(self).wf(),
            final(self).same_walk(old(self)),
            final(self).pending() is None,
            skipped_now(old(self).report(), final(self).report(), old(self).links(), old(self).pending()->0, reason),
            final(self).plan_view().holds == old(self).plan_view().holds,
            final(self).queued() == old(self).queued(),
            final(self).visited_names() == old(self).visited_names(),
    {
        let ghost c0 = self.plan.report;
        let ghost w0 = *self;
        let step = match self.current.take() {
            Some(s) => s,
            None => return,
        };
        let left = self.stack.above(step.branch.as_str());
        let ghost x = step.branch@;
        self.plan.report.skipped.push(CascadeSkip { branch: step.branch, base: step.base, reason, left_alone: left });
        proof {
            let c1 = self.plan.report;
            assert(skip_names(c1) =~= skip_names(c0).push(x));
            lemma_push4(move_names(c0), hold_names(c0), skip_names(c0), string_views(c0.unchanged@), x, 2);
            assert(move_names(c1) == move_names(c0));
            assert(hold_names(c1) == hold_names(c0));
            assert forall|n: Seq<char>| #[trigger] in_report(c1, n) implies string_views(self.visited@).contains(n) && n != self.root@ by {
                assert(in4(move_names(c1), hold_names(c1), skip_names(c1), string_views(c1.unchanged@), n));
                if n != x {
                    assert(in_report(c0, n));
                    assert(w0.wf());
                }
            }
            assert(c1.skipped@.drop_last() =~= c0.skipped@);
            assert forall|i: int| 0 <= i < c1.skipped@.len() implies ({
                let s = #[trigger] c1.skipped@[i];
                is_link(self.stack@, s.branch@, s.base@) && base_moved(c1, self.root@, s.base@)
            }) by {
                if i < c0.skipped@.len() {
                    assert(c1.skipped@[i] == c0.skipped@[i]);
                }
            }
            Self::lemma_covered_same(w0, *self);
        }
    }

    /// Settle the pending branch as having nothing of its own to replay.
    fn unchanged_pending(&mut self)
        requires
            old(self).wf(),
            old(self).pending() is Some,
        ensures
            final(self).wf(),
            final(self).same_walk(old(self)),
            final(self).pending() is None,
            unchanged_now(old(self).report(), final(self).report(), old(self).pending()->0),
            final(self).plan_view().holds == old(self).plan_view().holds,
            final(self).queued() == old(self).queued(),
            final(self).visited_names() == old(self).visited_names(),
    {
        let ghost c0 = self.plan.report;
        let ghost w0 = *self;
        let step = match self.current.take() {
            Some(s) => s,
            None => return,
        };
        let ghost x = step.branch@;
        self.plan.report.unchanged.push(step.branch);
        proof {
            let c1 = self.plan.report;
            assert(string_views(c1.unchanged@) =~= string_views(c0.unchanged@).push(x));
            lemma_push4(move_names(c0), hold_names(c0), skip_names(c0), string_views(c0.unchanged@), x, 3);
            assert(move_names(c1) == move_names(c0));
            assert(hold_names(c1) == hold_names(c0));
            assert(skip_names(c1) == skip_names(c0));
            assert forall|n: Seq<char>| #[trigger] in_report(c1, n) implies string_views(self.visited@).contains(n) && n != self.root@ by {
                assert(in4(move_names(c1), hold_names(c1), skip_names(c1), string_views(c1.unchanged@), n));
                if n != x {
                    assert(in_report(c0, n));
                    assert(w0.wf());
                }
            }
            Self::lemma_covered_same(w0, *self);
        }
    }

    /// The next branch to examine, parent before child, marked as visited.
    /// A branch already visited, which only a parent link aimed in a loop
    /// brings back, is passed over; one another worktree stands on is
    /// skipped here, naming that worktree's path. `None` once nothing is
    /// left to examine.
    pub fn next(&mut self) -> (r: Option<CascadeStep>)
        requires
            old(self).wf(),
        ensures
            final(self).wf(),
            final(self).same_walk(old(self)),
            r == final(self).pending(),
            final(self).report().moved@ == old(self).report().moved@,
            final(self).report().held@ == old(self).report().held@,
            final(self).report().unchanged@ == old(self).report().unchanged@,
            old(self).report().skipped@.is_prefix_of(final(self).report().skipped@),
            forall|i: int|
                old(self).report().skipped@.len() <= i < final(self).report().skipped@.len()
                    ==> (#[trigger] final(self).report().skipped@[i]).reason is Worktree,
            final(self).plan_view().holds == old(self).plan_view().holds,
            r is None ==> final(self).queued().len() == 0,
            forall|n: Seq<char>| #[trigger] old(self).visited_names().contains(n) ==> final(self).visited_names().contains(n),
            forall|n: Seq<char>| #[trigger] final(self).visited_names().contains(n) && !old(self).visited_names().contains(n)
                ==> (r matches Some(s) && s.branch@ == n) || skip_names(final(self).report()).contains(n),
            forall|i: int|
                old(self).report().skipped@.len() <= i < final(self).report().skipped@.len()
                    ==> final(self).held_elsewhere((#[trigger] final(self).report().skipped@[i]).branch@),
            r is None ==> forall|j: int| 0 <= j < old(self).queued().len()
                ==> final(self).visited_names().contains((#[trigger] old(self).queued()[j]).branch@),
            r matches Some(s) ==> {
                &&& !old(self).visited_names().contains(s.branch@)
                &&& !final(self).held_elsewhere(s.branch@)
                &&& exists|k: int| 0 <= k < old(self).queued().len() && old(self).queued()[k] == s
                    && final(self).queued() == old(self).queued().skip(k + 1)
                    && forall|j: int| 0 <= j < k ==> final(self).visited_names().contains((#[trigger] old(self).queued()[j]).branch@)
            },
    {
        let ghost w0 = *self;
        let ghost mut popped: int = 0;
        self.current = None;
        proof {
            Self::lemma_covered_same(w0, *self);
        }
        while self.queue.len() > 0
            invariant
                w0 == *old(self),
                self.wf(),
                self.current is None,
                self.same_walk(&w0),
                self.report().moved@ == w0.report().moved@,
                self.report().held@ == w0.report().held@,
                self.report().unchanged@ == w0.report().unchanged@,
                w0.report().skipped@.is_prefix_of(self.report().skipped@),
                forall|i: int|
                    w0.report().skipped@.len() <= i < self.report().skipped@.len()
                        ==> (#[trigger] self.report().skipped@[i]).reason is Worktree,
                self.plan_view().holds == w0.plan_view().holds,
                forall|n: Seq<char>| #[trigger] w0.visited_names().contains(n) ==> self.visited_names().contains(n),
                forall|n: Seq<char>| #[trigger] self.visited_names().contains(n) && !w0.visited_names().contains(n)
                    ==> skip_names(self.report()).contains(n),
                forall|i: int|
                    w0.report().skipped@.len() <= i < self.report().skipped@.len()
                        ==> self.held_elsewhere((#[trigger] self.report().skipped@[i]).branch@),
                0 <= popped <= w0.queued().len(),
                self.queued() == w0.queued().skip(popped),
                forall|j: int| 0 <= j < popped ==> self.visited_names().contains((#[trigger] w0.queued()[j]).branch@),
            decreases self.queue.len(),
        {
            let ghost q0 = self.queue@;
            let ghost pre = *self;
            let step = self.queue.remove(0);
            proof {
                assert(q0[0] == w0.queued()[popped]);
                assert(step == w0.queued()[popped]);
                popped = popped + 1;
                assert(self.queue@ =~= w0.queued().skip(popped));
            }
            proof {
                assert(self.step_ok(q0[0]));
                assert forall|i: int| 0 <= i < self.queue@.len() implies self.step_ok(#[trigger] self.queue@[i]) by {
                    assert(self.queue@[i] == q0[i + 1]);
                }
            }
            if contains_str(&self.visited, step.branch.as_str()) {
                proof {
                    assert(self.queue@ =~= pre.queue@.drop_first());
                    Self::lemma_covered_pop(pre, *self);
                    assert(self.visited_names() == pre.visited_names());
                    assert(self.report() == pre.report());
                    assert(self.holders_view() == pre.holders_view());
                }
                continue;
            }
            let ghost v0 = string_views(self.visited@);
            self.visited.push(step.branch.clone());
            proof {
                assert(string_views(self.visited@) =~= v0.push(step.branch@));
                assert(self.queue@ =~= pre.queue@.drop_first());
                assert(string_views(self.visited@)[v0.len() as int] == step.branch@);
                assert forall|n: Seq<char>| v0.contains(n) implies string_views(self.visited@).contains(n) by {
                    let i = choose|i: int| 0 <= i < v0.len() && v0[i] == n;
                    assert(string_views(self.visited@)[i] == n);
                }
                Self::lemma_covered_pop(pre, *self);
                lemma_push_fresh(v0, step.branch@);
                assert(v0[0] == self.root@);
                assert(step.branch@ != self.root@);
                assert(!in_report(self.plan.report, step.branch@));
            }
            match holder_path(&self.holders, step.branch.as_str()) {
                Some(path) => {
                    let ghost step_name = step.branch@;
                    let ghost before = *self;
                    self.current = Some(step);
                    proof {
                        Self::lemma_covered_same(before, *self);
                    }
                    self.skip_pending(SkipReason::Worktree { path });
                    proof {
                        assert(before.holders_view() == pre.holders_view());
                        assert(pre.held_elsewhere(step_name));
                        assert forall|i: int|
                            w0.report().skipped@.len() <= i < self.report().skipped@.len()
                                implies self.held_elsewhere((#[trigger] self.report().skipped@[i]).branch@) by {
                            if i < before.report().skipped@.len() {
                                assert(self.report().skipped@.drop_last()[i] == self.report().skipped@[i]);
                                assert(pre.held_elsewhere(pre.report().skipped@[i].branch@));
                            } else {
                                assert(self.report().skipped@[i].branch@ == step_name);
                            }
                        }
                        assert(v0 == pre.visited_names());
                        assert(before.report() == pre.report());
                        assert(self.report().skipped@.drop_last() == before.report().skipped@);
                        assert forall|n: Seq<char>| #[trigger] self.visited_names().contains(n) && !w0.visited_names().contains(n)
                            implies skip_names(self.report()).contains(n) by {
                            let sk = self.report().skipped@;
                            if n == step_name {
                                assert(skip_names(self.report())[sk.len() - 1] == n);
                            } else {
                                let i = choose|i: int| 0 <= i < self.visited_names().len() && self.visited_names()[i] == n;
                                assert(i < v0.len());
                                assert(v0[i] == n);
                                assert(pre.visited_names().contains(n));
                                assert(skip_names(pre.report()).contains(n));
                                let j = choose|j: int| 0 <= j < skip_names(pre.report()).len() && skip_names(pre.report())[j] == n;
                                assert(sk.drop_last()[j] == sk[j]);
                                assert(skip_names(self.report())[j] == n);
                            }
                        }
                        assert(self.report().skipped@.drop_last() == before.report().skipped@);
                        assert forall|i: int|
                            w0.report().skipped@.len() <= i < self.report().skipped@.len()
                                implies (#[trigger] self.report().skipped@[i]).reason is Worktree by {
                            if i < before.report().skipped@.len() {
                                assert(self.report().skipped@.drop_last()[i] == self.report().skipped@[i]);
                            }
                        }
                        assert(w0.report().skipped@.is_prefix_of(self.report().skipped@)) by {
                            assert forall|i: int| 0 <= i < w0.report().skipped@.len() implies self.report().skipped@[i] == w0.report().skipped@[i] by {
                                assert(self.report().skipped@.drop_last()[i] == self.report().skipped@[i]);
                            }
                        }
                    }
                },
                None => {
                    let r = copy_step(&step);
                    let ghost before = *self;
                    self.current = Some(step);
                    proof {
                        Self::lemma_covered_same(before, *self);
                        assert(v0 == pre.visited_names());
                        assert(self.report() == pre.report());
                        assert forall|n: Seq<char>| #[trigger] self.visited_names().contains(n) && !w0.visited_names().contains(n)
                            implies r.branch@ == n || skip_names(self.report()).contains(n) by {
                            if n != r.branch@ {
                                let i = choose|i: int| 0 <= i < self.visited_names().len() && self.visited_names()[i] == n;
                                assert(i < v0.len());
                                assert(v0[i] == n);
                                assert(pre.visited_names().contains(n));
                            }
                        }
                    }
                    return Some(r);
                },
            }
        }
        None
    }

    /// Whether the pending branch already holds a rewrite: one that does is
    /// skipped, since one hold per branch is the rule. `true` when the walk
    /// goes on to read its tip.
    pub fn held(&mut self, is_held: bool) -> (go: bool)
        requires
            old(self).wf(),
        ensures
            final(self).wf(),
            final(self).same_walk(old(self)),
            go == (old(self).pending() is Some && !is_held),
            go ==> final(self).pending() == old(self).pending() && final(self).report() == old(self).report(),
            !go ==> final(self).pending() is None,
            old(self).pending() is None ==> final(self).report() == old(self).report(),
            is_held ==> (old(self).pending() matches Some(s) ==> skipped_now(old(self).report(), final(self).report(), old(self).links(), s, SkipReason::AlreadyHeld)),
            final(self).plan_view().holds == old(self).plan_view().holds,
    {
        if self.current.is_none() {
            return false;
        }
        if is_held {
            self.skip_pending(SkipReason::AlreadyHeld);
            return false;
        }
        true
    }

    /// The pending branch's tip, `None` when the branch no longer exists:
    /// such a branch is passed over without a word.
    pub fn tip(&mut self, tip: Option<Oid>) -> (r: Option<Oid>)
        requires
            old(self).wf(),
        ensures
            final(self).wf(),
            final(self).same_walk(old(self)),
            final(self).report() == old(self).report(),
            r == (if old(self).pending() is Some { tip } else { None::<Oid> }),
            r is Some ==> final(self).pending() == old(self).pending(),
            r is None ==> final(self).pending() is None,
            final(self).plan_view().holds == old(self).plan_view().holds,
    {
        let ghost w0 = *self;
        if self.current.is_none() {
            return None;
        }
        if tip.is_none() {
            self.current = None;
            proof {
                Self::lemma_covered_same(w0, *self);
            }
        }
        tip
    }

    /// Judged against the base's new tip, given the merge bases of the
    /// pending branch's tip and that new tip: a branch sharing no history
    /// with it is skipped; one already on it, or wholly inside it, has
    /// nothing of its own. `true` when the walk goes on.
    pub fn against_new(&mut self, tip: &Oid, bases: &Vec<Oid>) -> (go: bool)
        requires
            old(self).wf(),
        ensures
            final(self).wf(),
            final(self).same_walk(old(self)),
            old(self).pending() is None ==> !go && final(self).report() == old(self).report(),
            old(self).pending() matches Some(s) ==> {
                let inside = exists|i: int| 0 <= i < bases@.len() && (bases@[i]@ == s.base_new@ || bases@[i]@ == tip@);
                &&& go == (bases@.len() > 0 && !inside)
                &&& bases@.len() == 0 ==> skipped_now(old(self).report(), final(self).report(), old(self).links(), s, SkipReason::Unrelated)
                &&& bases@.len() > 0 && inside ==> unchanged_now(old(self).report(), final(self).report(), s)
            },
            go ==> final(self).pending() == old(self).pending() && final(self).report() == old(self).report(),
            !go ==> final(self).pending() is None,
            final(self).plan_view().holds == old(self).plan_view().holds,
    {
        let base_new = match &self.current {
            Some(s) => s.base_new,
            None => return false,
        };
        if bases.len() == 0 {
            self.skip_pending(SkipReason::Unrelated);
            return false;
        }
        if contains_oid(bases, &base_new) || contains_oid(bases, tip) {
            self.unchanged_pending();
            return false;
        }
        true
    }

    /// Judged against where the base stood, given the merge bases of the
    /// pending branch's tip and the base's old tip: a branch wholly inside
    /// the base as it stood has nothing of its own. `true` when the walk
    /// goes on.
    pub fn against_old(&mut self, tip: &Oid, old_bases: &Vec<Oid>) -> (go: bool)
        requires
            old(self).wf(),
        ensures
            final(self).wf(),
            final(self).same_walk(old(self)),
            old(self).pending() is None ==> !go && final(self).report() == old(self).report(),
            old(self).pending() matches Some(s) ==> {
                let inside = exists|i: int| 0 <= i < old_bases@.len() && old_bases@[i]@ == tip@;
                &&& go == !inside
                &&& inside ==> unchanged_now(old(self).report(), final(self).report(), s)
            },
            go ==> final(self).pending() == old(self).pending() && final(self).report() == old(self).report(),
            !go ==> final(self).pending() is None,
            final(self).plan_view().holds == old(self).plan_view().holds,
    {
        if self.current.is_none() {
            return false;
        }
        if contains_oid(old_bases, tip) {
            self.unchanged_pending();
            return false;
        }
        true
    }

    /// Judged by its range, what the branch holds that its base did not: a
    /// range with a merge is skipped, since replaying one is ambiguous, and
    /// an empty one has nothing to replay. `true` when the walk goes on.
    pub fn ranged(&mut self, merge: bool, len: usize) -> (go: bool)
        requires
            old(self).wf(),
        ensures
            final(self).wf(),
            final(self).same_walk(old(self)),
            old(self).pending() is None ==> !go && final(self).report() == old(self).report(),
            old(self).pending() matches Some(s) ==> {
                &&& go == (!merge && len > 0)
                &&& merge ==> skipped_now(old(self).report(), final(self).report(), old(self).links(), s, SkipReason::MergeInRange)
                &&& !merge && len == 0 ==> unchanged_now(old(self).report(), final(self).report(), s)
            },
            go ==> final(self).pending() == old(self).pending() && final(self).report() == old(self).report(),
            !go ==> final(self).pending() is None,
            final(self).plan_view().holds == old(self).plan_view().holds,
    {
        if self.current.is_none() {
            return false;
        }
        if merge {
            self.skip_pending(SkipReason::MergeInRange);
            return false;
        }
        if len == 0 {
            self.unchanged_pending();
            return false;
        }
        true
    }

    /// The pending branch's replay conflicts at `at`, on `paths`, in a range
    /// of `of` commits: it is held the way `ff restack` holds, onto its
    /// base, and the branches above it are left alone.
    pub fn hold(&mut self, at: At, paths: Vec<String>, of: usize)
        requires
            old(self).wf(),
        ensures
            final(self).wf(),
            final(self).same_walk(old(self)),
            final(self).pending() is None,
            old(self).pending() is None ==> final(self).plan_view() == old(self).plan_view(),
            old(self).pending() matches Some(s) ==> held_now(
                old(self).plan_view(),
                final(self).plan_view(),
                old(self).links(),
                s,
                at,
                paths,
                of,
                old(self).now_view(),
            ),
            final(self).queued() == old(self).queued(),
    {
        let ghost w0 = *self;
        let ghost c0 = self.plan.report;
        let step = match self.current.take() {
            Some(s) => s,
            None => return,
        };
        let ghost x = step.branch@;
        let onto = crate::branch::heads_ref(step.base.as_str());
        let held = Held {
            intent: Intent::Restack { branch: step.branch.clone(), onto },
            at: copy_at(&at),
            paths: copy_strings(&paths),
            time: self.now,
        };
        self.plan.holds.push(HeldTransition { branch: step.branch.clone(), old: None, new: Some(held) });
        let left = self.stack.above(step.branch.as_str());
        let report = HeldReport { verb: crate::text::owned("restack"), branch: step.branch.clone(), at, paths, of };
        self.plan.report.held.push(CascadeHold { branch: step.branch, base: step.base, report, left_alone: left });
        proof {
            let c1 = self.plan.report;
            assert(hold_names(c1) =~= hold_names(c0).push(x));
            lemma_push4(move_names(c0), hold_names(c0), skip_names(c0), string_views(c0.unchanged@), x, 1);
            assert(move_names(c1) == move_names(c0));
            assert(skip_names(c1) == skip_names(c0));
            assert forall|n: Seq<char>| #[trigger] in_report(c1, n) implies string_views(self.visited@).contains(n) && n != self.root@ by {
                assert(in4(move_names(c1), hold_names(c1), skip_names(c1), string_views(c1.unchanged@), n));
                if n != x {
                    assert(in_report(c0, n));
                    assert(w0.wf());
                }
            }
            assert(c1.held@.drop_last() =~= c0.held@);
            assert(self.plan.holds@.drop_last() =~= w0.plan.holds@);
            assert forall|i: int| 0 <= i < c1.held@.len() implies ({
                let h = #[trigger] c1.held@[i];
                is_link(self.stack@, h.branch@, h.base@) && base_moved(c1, self.root@, h.base@)
            }) by {
                if i < c0.held@.len() {
                    assert(c1.held@[i] == c0.held@[i]);
                }
            }
            Self::lemma_covered_same(w0, *self);
        }
    }

    /// The pending branch was replayed: from `tip` to `new_tip`, rewriting
    /// `rewrites` and dropping `dropped`, with `diverged` the other heads
    /// inside its range, which stay where they stood. Its move joins the
    /// plan's ref transitions and pins, and its children are queued to
    /// replay onto the new tip.
    pub fn moved(
        &mut self,
        tip: Oid,
        new_tip: Oid,
        rewrites: Vec<Rewrite>,
        dropped: Vec<Dropped>,
        diverged: Vec<String>,
        published: usize,
        published_on: Option<String>,
        head: Option<HeadMove>,
    )
        requires
            old(self).wf(),
        ensures
            final(self).wf(),
            final(self).same_walk(old(self)),
            final(self).pending() is None,
            old(self).pending() is None ==> final(self).plan_view() == old(self).plan_view(),
            old(self).pending() matches Some(s) ==> {
                &&& moved_now(
                    old(self).plan_view(),
                    final(self).plan_view(),
                    s,
                    tip,
                    new_tip,
                    rewrites@,
                    dropped@,
                    diverged@,
                    published,
                    published_on,
                    head,
                )
                &&& forall|c: Seq<char>| #[trigger] crate::cascade::child_names(old(self).links(), s.branch@).contains(c)
                    ==> exists|k: int| 0 <= k < final(self).queued().len() && {
                        let q = #[trigger] final(self).queued()[k];
                        q.branch@ == c && q.base == s.branch && q.base_old == tip && q.base_new == new_tip
                    }
            },
    {
        let ghost w0 = *self;
        let ghost c0 = self.plan.report;
        let ghost p0 = self.plan;
        let step = match self.current.take() {
            Some(s) => s,
            None => return,
        };
        let ghost x = step.branch@;
        let mut new_pins: Vec<Oid> = Vec::new();
        let mut new_rewrites: Vec<Rewrite> = Vec::new();
        let mut k: usize = 0;
        while k < rewrites.len()
            invariant
                k <= rewrites@.len(),
                new_pins@ == rewritten(rewrites@.take(k as int)),
                new_rewrites@ == rewrites@.take(k as int),
            decreases rewrites.len() - k,
        {
            new_pins.push(rewrites[k].new);
            new_rewrites.push(rewrites[k]);
            proof {
                assert(rewritten(rewrites@.take(k + 1)) =~= rewritten(rewrites@.take(k as int)).push(rewrites@[k as int].new));
                assert(rewrites@.take(k + 1) =~= rewrites@.take(k as int).push(rewrites@[k as int]));
            }
            k += 1;
        }
        proof {
            assert(rewrites@.take(rewrites@.len() as int) =~= rewrites@);
        }
        new_pins.push(tip);
        let mut new_dropped = copy_dropped(&dropped);
        let kids = self.stack.children(step.branch.as_str());
        let mut steps: Vec<CascadeStep> = Vec::new();
        let mut k: usize = 0;
        while k < kids.len()
            invariant
                k <= kids@.len(),
                steps@.len() == k,
                forall|j: int| 0 <= j < k ==> {
                    let q = #[trigger] steps@[j];
                    q.branch == kids@[j] && q.base == step.branch && q.base_old == tip && q.base_new == new_tip
                },
            decreases kids.len() - k,
        {
            steps.push(CascadeStep {
                branch: kids[k].clone(),
                base: step.branch.clone(),
                base_old: tip,
                base_new: new_tip,
            });
            k += 1;
        }
        let ghost q0 = self.queue@;
        let ghost steps_v = steps@;
        self.plan.pins.append(&mut new_pins);
        self.plan.rewrites.append(&mut new_rewrites);
        self.plan.dropped.append(&mut new_dropped);
        self.queue.append(&mut steps);
        let name = crate::branch::heads_ref(step.branch.as_str());
        self.plan.carried.push(RefTransition { name, old: Some(tip.to_hex()), new: Some(new_tip.to_hex()) });
        if head.is_some() {
            self.plan.head = head;
        }
        let old_tip = tip.to_hex();
        let new_hex = new_tip.to_hex();
        let replayed = rewrites.len();
        self.plan.report.moved.push(CascadeMove {
            branch: step.branch,
            base: step.base,
            old_tip,
            new_tip: new_hex,
            replayed,
            dropped,
            diverged,
            published,
            published_on,
        });
        proof {
            let c1 = self.plan.report;
            assert(move_names(c1) =~= move_names(c0).push(x));
            lemma_push4(move_names(c0), hold_names(c0), skip_names(c0), string_views(c0.unchanged@), x, 0);
            assert(hold_names(c1) == hold_names(c0));
            assert(skip_names(c1) == skip_names(c0));
            assert(move_names(c1)[move_names(c0).len() as int] == x);
            assert(move_names(c1).contains(x));
            assert forall|n: Seq<char>| move_names(c0).contains(n) implies move_names(c1).contains(n) by {
                let i = choose|i: int| 0 <= i < move_names(c0).len() && move_names(c0)[i] == n;
                assert(move_names(c1)[i] == n);
            }
            assert forall|n: Seq<char>| #[trigger] in_report(c1, n) implies string_views(self.visited@).contains(n) && n != self.root@ by {
                assert(in4(move_names(c1), hold_names(c1), skip_names(c1), string_views(c1.unchanged@), n));
                if n != x {
                    assert(in_report(c0, n));
                    assert(w0.wf());
                }
            }
            assert(c1.moved@.drop_last() =~= c0.moved@);
            assert(self.plan.carried@.drop_last() =~= p0.carried@);
            assert(self.plan.pins@ =~= p0.pins@ + rewritten(rewrites@).push(tip));
            assert(self.plan.rewrites@ =~= p0.rewrites@ + rewrites@);
            assert(self.plan.dropped@ =~= p0.dropped@ + dropped@);
            assert(self.plan.report.held == p0.report.held);
            assert(self.plan.report.skipped == p0.report.skipped);
            assert(self.plan.report.unchanged == p0.report.unchanged);
            assert(self.plan.holds == p0.holds);
            assert(self.plan.head == if head is Some { head } else { p0.head });
            assert(moved_now(p0, self.plan, w0.current->0, tip, new_tip, rewrites@, dropped@, diverged@, published, published_on, head));
            assert forall|i: int| 0 <= i < c1.moved@.len() implies ({
                let m = #[trigger] c1.moved@[i];
                is_link(self.stack@, m.branch@, m.base@) && base_moved(c1, self.root@, m.base@)
            }) by {
                if i < c0.moved@.len() {
                    assert(c1.moved@[i] == c0.moved@[i]);
                    assert(w0.wf());
                }
            }
            assert forall|i: int| 0 <= i < c1.held@.len() implies ({
                let h = #[trigger] c1.held@[i];
                is_link(self.stack@, h.branch@, h.base@) && base_moved(c1, self.root@, h.base@)
            }) by {
                assert(c1.held@[i] == c0.held@[i]);
                assert(w0.wf());
            }
            assert forall|i: int| 0 <= i < c1.skipped@.len() implies ({
                let sk = #[trigger] c1.skipped@[i];
                is_link(self.stack@, sk.branch@, sk.base@) && base_moved(c1, self.root@, sk.base@)
            }) by {
                assert(c1.skipped@[i] == c0.skipped@[i]);
                assert(w0.wf());
            }
            assert forall|i: int| 0 <= i < self.queue@.len() implies self.step_ok(#[trigger] self.queue@[i]) by {
                if i < q0.len() {
                    assert(self.queue@[i] == q0[i]);
                    assert(w0.step_ok(q0[i]));
                } else {
                    let j = i - q0.len();
                    assert(self.queue@[i] == steps_v[j]);
                    assert(steps_v[j].branch == kids@[j]);
                }
            }
            let s0 = w0.current->0;
            assert(s0 == step);
            assert forall|c: Seq<char>| #[trigger] crate::cascade::child_names(w0.links(), s0.branch@).contains(c) implies exists|k: int| 0 <= k < self.queued().len() && {
                let q = #[trigger] self.queued()[k];
                q.branch@ == c && q.base == s0.branch && q.base_old == tip && q.base_new == new_tip
            } by {
                string_views(kids@).to_multiset_ensures();
                crate::cascade::child_names(w0.stack@, x).to_multiset_ensures();
                assert(crate::cascade::child_names(w0.stack@, x).to_multiset().count(c) > 0);
                assert(string_views(kids@).contains(c));
                let j = choose|j: int| 0 <= j < string_views(kids@).len() && string_views(kids@)[j] == c;
                assert(self.queue@[q0.len() + j] == steps_v[j]);
                assert(steps_v[j].branch == kids@[j]);
                assert(self.queued()[q0.len() + j].branch@ == c);
            }
            assert forall|c: Seq<char>, b2: Seq<char>| #[trigger] is_link(self.stack@, c, b2) && base_moved(self.plan.report, self.root@, b2)
                implies string_views(self.visited@).contains(c)
                    || exists|k: int| 0 <= k < self.queue@.len() && (#[trigger] self.queue@[k]).branch@ == c by {
                if b2 == x {
                    assert(string_views(kids@).contains(c));
                    let j = choose|j: int| 0 <= j < string_views(kids@).len() && string_views(kids@)[j] == c;
                    assert(self.queue@[q0.len() + j] == steps_v[j]);
                    assert(steps_v[j].branch == kids@[j]);
                } else {
                    if b2 != self.root@ {
                        let i = choose|i: int| 0 <= i < move_names(c1).len() && move_names(c1)[i] == b2;
                        assert(move_names(c0)[i] == b2);
                    }
                    assert(base_moved(c0, w0.root@, b2));
                    assert(is_link(w0.stack@, c, b2));
                    if !string_views(w0.visited@).contains(c) {
                        let k = choose|k: int| 0 <= k < w0.queue@.len() && (#[trigger] w0.queue@[k]).branch@ == c;
                        assert(self.queue@[k] == q0[k]);
                    }
                }
            }
        }
    }

    /// The plan the walk has made.
    pub fn finish(self) -> (p: CascadePlan)
        ensures
            p == self.plan_view(),
    {
        self.plan
    }
}

/// A cascade names each branch at most once, and never the branch whose
/// move started it; and it reaches a branch only through its base having
/// moved: every branch it moved, held or skipped sits directly on that
/// root or on a branch it moved.
pub proof fn lemma_cascade_reports_once(w: &CascadeWalk)
    requires
        w.wf(),
    ensures
        report_distinct(w.report()),
        !in_report(w.report(), w.root_name()),
        forall|i: int| 0 <= i < w.report().moved@.len() ==> {
            let m = #[trigger] w.report().moved@[i];
            is_link(w.links(), m.branch@, m.base@) && base_moved(w.report(), w.root_name(), m.base@)
        },
        forall|i: int| 0 <= i < w.report().held@.len() ==> {
            let h = #[trigger] w.report().held@[i];
            is_link(w.links(), h.branch@, h.base@) && base_moved(w.report(), w.root_name(), h.base@)
        },
        forall|i: int| 0 <= i < w.report().skipped@.len() ==> {
            let s = #[trigger] w.report().skipped@[i];
            is_link(w.links(), s.branch@, s.base@) && base_moved(w.report(), w.root_name(), s.base@)
        },
{
}

/// The walk reaches the whole tree above its root: once nothing waits its
/// turn, every branch sitting directly on the root or on a branch that
/// moved has been examined, whether handed out to be replayed or settled
/// without a replay.
pub proof fn lemma_walk_complete(w: &CascadeWalk)
    requires
        w.wf(),
        w.queued().len() == 0,
    ensures
        forall|c: Seq<char>, b: Seq<char>| #[trigger] is_link(w.links(), c, b) && base_moved(w.report(), w.root_name(), b)
            ==> w.visited_names().contains(c),
{
    assert forall|c: Seq<char>, b: Seq<char>| #[trigger] is_link(w.links(), c, b) && base_moved(w.report(), w.root_name(), b)
        implies w.visited_names().contains(c) by {
        assert(w.covered());
    }
}

} // verus!
