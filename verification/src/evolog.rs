//! A branch's captures newest first, and the abbreviation each row is shown
//! with.

use vstd::prelude::*;
pub mod order;
pub mod sweep;
use crate::model::SnapEntry;
use crate::oid::Oid;
use crate::text::opt_view;

verus! {

/// What `ff evolog` was asked to show.
#[derive(Debug, Clone, Default)]
pub struct EvologOptions {
    /// Maximum number of capture rows.
    pub limit: Option<usize>,
    /// The branch to walk (a branch name or `@detached`); `None` is HEAD's.
    pub chain: Option<String>,
}

/// How many characters of an id a row shows: what the id index says is
/// unambiguous, 8 when it has no answer, and never fewer than 4.
pub open spec fn shown_len(len: Option<usize>) -> nat {
    let n: nat = match len {
        Some(n) => n as nat,
        None => 8,
    };
    if n < 4 { 4 } else { n }
}

/// The first `shown_len(len)` characters of `id`, or all of it when it is
/// shorter.
pub open spec fn short_of(id: Seq<char>, len: Option<usize>) -> Seq<char> {
    if shown_len(len) <= id.len() { id.take(shown_len(len) as int) } else { id }
}

/// The abbreviation of one id.
pub fn short_id_of(id: &str, len: Option<usize>) -> (r: String)
    ensures
        r@ == short_of(id@, len),
{
    let n: usize = match len {
        Some(n) => if n < 4 { 4 } else { n },
        None => 8,
    };
    let v = crate::text::chars_of(id);
    let end: usize = if n <= v.len() { n } else { v.len() };
    let s = crate::text::slice_chars(&v, 0, end);
    proof {
        if shown_len(len) > id@.len() {
            assert(id@.subrange(0, id@.len() as int) =~= id@);
        }
    }
    crate::text::string_of(&s)
}

/// The rows about to be shown, each abbreviated by the length the id index
/// gave for it (`lens[i]` for row `i`, `None` where the index had no answer
/// or could not be read); every other field stays as it was.
pub fn fill_short_ids(rows: Vec<SnapEntry>, lens: &Vec<Option<usize>>) -> (out: Vec<SnapEntry>)
    requires
        lens@.len() == rows@.len(),
    ensures
        out@.len() == rows@.len(),
        forall|i: int|
            0 <= i < rows@.len() ==> {
                let (o, r) = (#[trigger] out@[i], rows@[i]);
                &&& o.short_id@ == short_of(r.id@, lens@[i])
                &&& o.id == r.id && o.subject == r.subject && o.time == r.time
                &&& o.base == r.base && o.prev == r.prev
            },
{
    let ghost input = rows@;
    let count: usize = rows.len();
    let mut rest = rows;
    let mut out: Vec<SnapEntry> = Vec::new();
    let mut k: usize = 0;
    while rest.len() > 0
        invariant
            k <= input.len(),
            input.len() == lens@.len(),
            input.len() == count,
            rest@ == input.skip(k as int),
            out@.len() == k,
            forall|i: int|
                0 <= i < k ==> {
                    let (o, r) = (#[trigger] out@[i], input[i]);
                    &&& o.short_id@ == short_of(r.id@, lens@[i])
                    &&& o.id == r.id && o.subject == r.subject && o.time == r.time
                    &&& o.base == r.base && o.prev == r.prev
                },
        decreases rest.len(),
    {
        proof {
            assert(k < input.len());
            assert(input.skip(k as int)[0] == input[k as int]);
        }
        let mut row = rest.remove(0);
        proof {
            assert(rest@ =~= input.skip(k + 1));
        }
        row.short_id = short_id_of(row.id.as_str(), lens[k]);
        out.push(row);
        k += 1;
    }
    out
}


/// How many operations the anchor walk steps through one at a time before
/// it only goes on by hopping segment pointers.
pub const SEGMENT_SCAN_CAP: usize = 512;

/// An operation's pointer to the newest operation of the segment before its
/// own.
#[derive(Debug, Clone, Copy, PartialEq, Eq)]
pub enum SegmentLink {
    At(Oid),
    /// Everything below is this same first segment.
    ChainStart,
}

/// One operation as the anchor walk reads it.
#[derive(Debug, Clone)]
pub struct AnchorOp {
    pub id: String,
    /// The commit HEAD sat on when it ran, full hex.
    pub base: Option<String>,
    pub tree: Oid,
    pub time: i64,
    pub is_capture: bool,
    pub segment_prev: Option<SegmentLink>,
    /// The previous operation on the branch.
    pub next: Option<Oid>,
}

/// One displayed commit, as an operation would answer it: its first parent
/// (the base an operation would record) and its tree.
#[derive(Debug, Clone)]
pub struct Wanted {
    pub id: String,
    pub base: Option<String>,
    pub tree: Oid,
}

/// Where the walk goes after an operation.
#[derive(Debug, Clone, Copy, PartialEq, Eq)]
pub enum AnchorStep {
    /// Try the segment pointer: hop there if it checks out.
    Hop(Oid),
    /// Step to the previous operation on the branch.
    Step(Oid),
    Stop,
}

/// Whether an operation answers a displayed commit: it is a capture on
/// that commit's base with that commit's tree.
pub open spec fn answers(op: AnchorOp, w: Wanted) -> bool {
    op.is_capture && opt_view(op.base) == opt_view(w.base) && op.tree@ == w.tree@
}

/// The anchors after an operation is visited: those already found, and for
/// every displayed commit it answers that has none yet, this operation.
pub open spec fn recorded(anchors: Map<Seq<char>, Seq<char>>, wanted: Seq<Wanted>, op: AnchorOp) -> Map<Seq<char>, Seq<char>> {
    Map::new(
        |k: Seq<char>| anchors.dom().contains(k) || exists|i: int| 0 <= i < wanted.len() && wanted[i].id@ == k && answers(op, wanted[i]),
        |k: Seq<char>| if anchors.dom().contains(k) { anchors[k] } else { op.id@ },
    )
}

/// The walk for evolog's drill-in anchors: for each displayed commit, the
/// newest capture on the branch whose base is the commit's first parent and
/// whose tree is the commit's tree. Segments whose base no displayed commit
/// wants are skipped by their pointers; a wanted segment is scanned one
/// operation at a time, up to a budget.
pub struct AnchorWalk {
    wanted: Vec<Wanted>,
    floor: i64,
    budget: usize,
    found: Vec<(String, String)>,
}

impl AnchorWalk {
    /// The anchors found so far, as a map from commit to operation.
    pub closed spec fn anchors(&self) -> Map<Seq<char>, Seq<char>> {
        Map::new(
            |k: Seq<char>| exists|i: int| 0 <= i < self.found@.len() && self.found@[i].0@ == k,
            |k: Seq<char>| self.found@[choose|i: int| 0 <= i < self.found@.len() && self.found@[i].0@ == k].1@,
        )
    }

    /// The displayed commits.
    pub closed spec fn wanted_view(&self) -> Seq<Wanted> {
        self.wanted@
    }

    /// How many single steps are left.
    pub closed spec fn budget_left(&self) -> nat {
        self.budget as nat
    }

    /// The oldest time an anchor can have.
    pub closed spec fn floor_view(&self) -> i64 {
        self.floor
    }

    /// Each commit found once.
    pub closed spec fn wf(&self) -> bool {
        forall|i: int, j: int| 0 <= i < j < self.found@.len() ==> self.found@[i].0@ != self.found@[j].0@
    }

    /// Start the walk for `wanted`. `floor` is the oldest base time among
    /// them, `None` when one could not be read: nothing older than the
    /// oldest base can anchor anything, and an unreadable base drops the
    /// floor away.
    pub fn new(wanted: Vec<Wanted>, floor: Option<i64>) -> (w: AnchorWalk)
        ensures
            w.wf(),
            w.wanted_view() == wanted@,
            w.anchors() == Map::<Seq<char>, Seq<char>>::empty(),
            w.budget_left() == SEGMENT_SCAN_CAP,
            w.floor_view() == match floor {
                Some(f) => f,
                None => i64::MIN,
            },
    {
        let w = AnchorWalk {
            wanted,
            floor: match floor {
                Some(f) => f,
                None => i64::MIN,
            },
            budget: SEGMENT_SCAN_CAP,
            found: Vec::new(),
        };
        assert(w.anchors() =~= Map::<Seq<char>, Seq<char>>::empty());
        w
    }

    /// How many commits have an anchor.
    pub fn found_count(&self) -> (n: usize)
        requires
            self.wf(),
        ensures
            n == self.anchors().dom().len(),
    {
        proof {
            self.lemma_dom_len();
        }
        self.found.len()
    }

    proof fn lemma_dom_len(&self)
        requires
            self.wf(),
        ensures
            self.anchors().dom().len() == self.found@.len(),
            self.anchors().dom().finite(),
    {
        let keys = self.found@.map_values(|e: (String, String)| e.0@);
        assert forall|i: int, j: int| 0 <= i < keys.len() && 0 <= j < keys.len() && i != j implies keys[i] != keys[j] by {
            if i < j {
                assert(self.found@[i].0@ != self.found@[j].0@);
            } else {
                assert(self.found@[j].0@ != self.found@[i].0@);
            }
        }
        keys.unique_seq_to_set();
        assert(self.anchors().dom() =~= keys.to_set()) by {
            assert forall|k: Seq<char>| self.anchors().dom().contains(k) <==> keys.to_set().contains(k) by {
                if self.anchors().dom().contains(k) {
                    let i = choose|i: int| 0 <= i < self.found@.len() && self.found@[i].0@ == k;
                    assert(keys[i] == k);
                }
                if keys.to_set().contains(k) {
                    let i = choose|i: int| 0 <= i < keys.len() && keys[i] == k;
                    assert(self.found@[i].0@ == k);
                }
            }
        }
    }

    /// The anchors an operation adds: for every displayed commit it answers
    /// that has none yet, this operation.
    fn record(&mut self, op: &AnchorOp)
        requires
            old(self).wf(),
        ensures
            final(self).wf(),
            final(self).wanted_view() == old(self).wanted_view(),
            final(self).budget_left() == old(self).budget_left(),
            final(self).floor_view() == old(self).floor_view(),
            forall|k: Seq<char>| #[trigger] final(self).anchors().dom().contains(k) <==> (old(self).anchors().dom().contains(k)
                || exists|i: int| 0 <= i < old(self).wanted_view().len() && old(self).wanted_view()[i].id@ == k
                    && answers(*op, old(self).wanted_view()[i])),
            forall|k: Seq<char>| #[trigger] old(self).anchors().dom().contains(k) ==> final(self).anchors()[k] == old(self).anchors()[k],
            forall|k: Seq<char>| #[trigger] final(self).anchors().dom().contains(k) && !old(self).anchors().dom().contains(k)
                ==> final(self).anchors()[k] == op.id@,
    {
        let ghost w0 = *self;
        if !op.is_capture {
            return;
        }
        let mut i: usize = 0;
        while i < self.wanted.len()
            invariant
                self.wf(),
                op.is_capture,
                self.wanted@ == w0.wanted@,
                self.budget == w0.budget,
                self.floor == w0.floor,
                i <= self.wanted@.len(),
                forall|k: Seq<char>| #[trigger] self.anchors().dom().contains(k) <==> (w0.anchors().dom().contains(k)
                    || exists|j: int| 0 <= j < i && w0.wanted@[j].id@ == k && answers(*op, w0.wanted@[j])),
                forall|k: Seq<char>| #[trigger] w0.anchors().dom().contains(k) ==> self.anchors()[k] == w0.anchors()[k],
                forall|k: Seq<char>| #[trigger] self.anchors().dom().contains(k) && !w0.anchors().dom().contains(k)
                    ==> self.anchors()[k] == op.id@,
                forall|q: int| 0 <= q < w0.found@.len() ==> #[trigger] self.found@[q] == w0.found@[q],
                self.found@.len() >= w0.found@.len(),
            decreases self.wanted.len() - i,
        {
            let w = &self.wanted[i];
            let same_base = match (&op.base, &w.base) {
                (Some(a), Some(b)) => crate::text::str_eq(a.as_str(), b.as_str()),
                (None, None) => true,
                _ => false,
            };
            let hit = same_base && op.tree.same(&w.tree);
            let ghost before = *self;
            if hit {
                let mut present = false;
                let mut q: usize = 0;
                while q < self.found.len()
                    invariant
                        i < self.wanted@.len(),
                        q <= self.found@.len(),
                        present == exists|t: int| 0 <= t < q && self.found@[t].0@ == self.wanted@[i as int].id@,
                    decreases self.found.len() - q,
                {
                    if crate::text::str_eq(self.found[q].0.as_str(), self.wanted[i].id.as_str()) {
                        present = true;
                    }
                    q += 1;
                }
                if !present {
                    let key = self.wanted[i].id.clone();
                    self.found.push((key, op.id.clone()));
                    proof {
                        let n = before.found@.len();
                        assert forall|a: int, b: int| 0 <= a < b < self.found@.len() implies self.found@[a].0@ != self.found@[b].0@ by {
                            if b < n {
                                assert(self.found@[a] == before.found@[a] && self.found@[b] == before.found@[b]);
                            } else {
                                assert(self.found@[a] == before.found@[a]);
                            }
                        }
                        assert forall|k: Seq<char>| #[trigger] self.anchors().dom().contains(k) <==> (before.anchors().dom().contains(k) || k == self.wanted@[i as int].id@) by {
                            if self.anchors().dom().contains(k) {
                                let t = choose|t: int| 0 <= t < self.found@.len() && self.found@[t].0@ == k;
                                if t < n {
                                    assert(before.found@[t] == self.found@[t]);
                                }
                            }
                            if before.anchors().dom().contains(k) {
                                let t = choose|t: int| 0 <= t < before.found@.len() && before.found@[t].0@ == k;
                                assert(self.found@[t] == before.found@[t]);
                            }
                            if k == self.wanted@[i as int].id@ {
                                assert(self.found@[n as int].0@ == k);
                            }
                        }
                        assert forall|k: Seq<char>| #[trigger] before.anchors().dom().contains(k) implies self.anchors()[k] == before.anchors()[k] by {
                            let t = choose|t: int| 0 <= t < before.found@.len() && before.found@[t].0@ == k;
                            let u = choose|u: int| 0 <= u < self.found@.len() && self.found@[u].0@ == k;
                            assert(self.found@[t] == before.found@[t]);
                            assert(u == t);
                            let v = choose|v: int| 0 <= v < before.found@.len() && before.found@[v].0@ == k;
                            assert(v == t);
                        }
                        assert forall|k: Seq<char>| #[trigger] w0.anchors().dom().contains(k) implies self.anchors()[k] == w0.anchors()[k] by {
                            assert(before.anchors().dom().contains(k));
                            assert(before.anchors()[k] == w0.anchors()[k]);
                        }
                        assert forall|k: Seq<char>| #[trigger] self.anchors().dom().contains(k) && !before.anchors().dom().contains(k)
                            implies self.anchors()[k] == op.id@ by {
                            let u = choose|u: int| 0 <= u < self.found@.len() && self.found@[u].0@ == k;
                            if u < n {
                                assert(before.found@[u] == self.found@[u]);
                                assert(before.anchors().dom().contains(k));
                            }
                        }
                    }
                } else {
                    proof {
                        let t = choose|t: int| 0 <= t < self.found@.len() && self.found@[t].0@ == self.wanted@[i as int].id@;
                        assert(self.anchors().dom().contains(self.wanted@[i as int].id@));
                    }
                }
            }
            proof {
                assert(answers(*op, w0.wanted@[i as int]) == hit);
            }
            i += 1;
        }
    }

    /// Visit an operation, newest first: record the anchors it gives, then
    /// say where the walk goes. It stops once every displayed commit has an
    /// anchor or the operation is older than the floor. A segment whose base
    /// no displayed commit wants, or one scanned until the budget ran out,
    /// is left by its pointer (`Hop`) when it has one, and the walk ends at
    /// the chain's first segment; otherwise it steps to the previous
    /// operation, spending budget, and stops when there is none or the
    /// budget is spent.
    pub fn visit(&mut self, op: &AnchorOp) -> (r: AnchorStep)
        requires
            old(self).wf(),
        ensures
            final(self).wf(),
            final(self).wanted_view() == old(self).wanted_view(),
            final(self).floor_view() == old(self).floor_view(),
            final(self).anchors() == recorded(old(self).anchors(), old(self).wanted_view(), *op),
            ({
                let done = final(self).anchors().dom().len() >= old(self).wanted_view().len() || op.time < old(self).floor_view();
                let wanted_base = exists|i: int| 0 <= i < old(self).wanted_view().len()
                    && opt_view(old(self).wanted_view()[i].base) == opt_view(op.base);
                let scan = wanted_base && old(self).budget_left() > 0;
                if done {
                    r == AnchorStep::Stop && final(self).budget_left() == old(self).budget_left()
                } else if !scan && pointer_of(op.segment_prev) is Some {
                    r == AnchorStep::Hop(pointer_of(op.segment_prev)->0) && final(self).budget_left() == old(self).budget_left()
                } else if !scan && op.segment_prev == Some(SegmentLink::ChainStart) {
                    r == AnchorStep::Stop && final(self).budget_left() == old(self).budget_left()
                } else {
                    stepped(old(self).budget_left(), final(self).budget_left(), op.next, r)
                }
            }),
    {
        let ghost before = *self;
        self.record(op);
        proof {
            self.lemma_dom_len();
            assert(self.anchors() =~= recorded(before.anchors(), before.wanted_view(), *op));
        }
        if self.found.len() >= self.wanted.len() || op.time < self.floor {
            return AnchorStep::Stop;
        }
        let mut wanted_base = false;
        let mut i: usize = 0;
        while i < self.wanted.len()
            invariant
                i <= self.wanted@.len(),
                wanted_base == exists|j: int| 0 <= j < i && opt_view(self.wanted@[j].base) == opt_view(op.base),
            decreases self.wanted.len() - i,
        {
            let same = match (&op.base, &self.wanted[i].base) {
                (Some(a), Some(b)) => crate::text::str_eq(a.as_str(), b.as_str()),
                (None, None) => true,
                _ => false,
            };
            if same {
                wanted_base = true;
            }
            i += 1;
        }
        let scan = wanted_base && self.budget > 0;
        if !scan {
            match op.segment_prev {
                Some(SegmentLink::At(p)) => return AnchorStep::Hop(p),
                Some(SegmentLink::ChainStart) => return AnchorStep::Stop,
                None => {},
            }
        }
        self.step(op)
    }

    /// The step to the previous operation on the branch, when a pointer was
    /// not taken: none when there is none or the budget is spent, and one
    /// unit of budget spent otherwise.
    pub fn step(&mut self, op: &AnchorOp) -> (r: AnchorStep)
        requires
            old(self).wf(),
        ensures
            final(self).wf(),
            final(self).wanted_view() == old(self).wanted_view(),
            final(self).floor_view() == old(self).floor_view(),
            final(self).anchors() == old(self).anchors(),
            stepped(old(self).budget_left(), final(self).budget_left(), op.next, r),
    {
        match op.next {
            None => AnchorStep::Stop,
            Some(n) => {
                if self.budget == 0 {
                    AnchorStep::Stop
                } else {
                    self.budget = self.budget - 1;
                    AnchorStep::Step(n)
                }
            },
        }
    }

    /// The anchors found, commit and operation.
    pub fn finish(self) -> (r: Vec<(String, String)>)
        requires
            self.wf(),
        ensures
            forall|k: Seq<char>| self.anchors().dom().contains(k) <==> exists|i: int| 0 <= i < r@.len() && r@[i].0@ == k,
            forall|i: int| 0 <= i < r@.len() ==> self.anchors()[r@[i].0@] == #[trigger] r@[i].1@,
    {
        proof {
            assert forall|i: int| 0 <= i < self.found@.len() implies self.anchors()[self.found@[i].0@] == #[trigger] self.found@[i].1@ by {
                let k = self.found@[i].0@;
                let j = choose|j: int| 0 <= j < self.found@.len() && self.found@[j].0@ == k;
                if j != i {
                    if j < i {
                        assert(self.found@[j].0@ != self.found@[i].0@);
                    } else {
                        assert(self.found@[i].0@ != self.found@[j].0@);
                    }
                }
            }
        }
        self.found
    }
}

/// The operation a segment pointer names, when it names one.
pub open spec fn pointer_of(l: Option<SegmentLink>) -> Option<Oid> {
    match l {
        Some(SegmentLink::At(p)) => Some(p),
        _ => None,
    }
}

/// The step after an operation: to its predecessor, spending one unit of
/// budget, when there is one and budget is left; a stop otherwise.
pub open spec fn stepped(before: nat, after: nat, next: Option<Oid>, r: AnchorStep) -> bool {
    match next {
        None => r == AnchorStep::Stop && after == before,
        Some(n) => if before == 0 {
            r == AnchorStep::Stop && after == before
        } else {
            r == AnchorStep::Step(n) && after == before - 1
        },
    }
}

/// A segment pointer is trusted only when it leads to an operation no newer
/// than the one it was read from; any other answer is no pointer at all.
pub fn hop_accepted(target_time: Option<i64>, not_newer_than: i64) -> (r: bool)
    ensures
        r == (target_time matches Some(t) && t <= not_newer_than),
{
    match target_time {
        Some(t) => t <= not_newer_than,
        None => false,
    }
}

} // verus!
