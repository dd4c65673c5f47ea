//! The anchor walk against the full sweep it replaced. Over a well-formed
//! branch log whose operations on the wanted bases fit the scan budget, a walk that hops over the segments
//! nobody asks about finds exactly the anchors that visiting every capture
//! finds.

use vstd::prelude::*;
use crate::evolog::{answers, pointer_of, recorded, AnchorOp, SegmentLink, Wanted, SEGMENT_SCAN_CAP};
use crate::hex::hex_of;
use crate::text::opt_view;

verus! {

/// The first operation at or after `i` that answers `w`; the log's length
/// when none does.
pub open spec fn first_from(log: Seq<AnchorOp>, w: Wanted, i: int) -> int
    decreases log.len() - i,
{
    if i >= log.len() {
        log.len() as int
    } else if answers(log[i], w) {
        i
    } else {
        first_from(log, w, i + 1)
    }
}

/// The newest operation that answers `w`, as a position in the log.
pub open spec fn first_answer(log: Seq<AnchorOp>, w: Wanted) -> int {
    first_from(log, w, 0)
}

/// What the full sweep has found after the newest `n` operations: each
/// displayed commit with an answer among them, anchored at its newest one.
pub open spec fn swept(log: Seq<AnchorOp>, wanted: Seq<Wanted>, n: int) -> Map<Seq<char>, Seq<char>> {
    Map::new(
        |k: Seq<char>| exists|t: int| 0 <= t < wanted.len() && wanted[t].id@ == k && first_answer(log, wanted[t]) < n,
        |k: Seq<char>| log[first_answer(log, wanted[choose|t: int| 0 <= t < wanted.len() && wanted[t].id@ == k])].id@,
    )
}

/// The end of the segment `i` stands in: the first older operation on
/// another base, at or after `j`; the log's length when there is none.
pub open spec fn seg_end_from(log: Seq<AnchorOp>, i: int, j: int) -> int
    decreases log.len() - j,
{
    if j >= log.len() {
        log.len() as int
    } else if opt_view(log[j].base) != opt_view(log[i].base) {
        j
    } else {
        seg_end_from(log, i, j + 1)
    }
}

/// The newest operation of the segment before the one `i` stands in.
pub open spec fn seg_end(log: Seq<AnchorOp>, i: int) -> int {
    seg_end_from(log, i, i + 1)
}

/// A branch log as the operations record it, newest first: times never
/// grow going back, ids are distinct, each operation links the one before
/// it, and each points at the newest operation of the segment before its
/// own, or declares the chain's first segment.
pub open spec fn well_formed(log: Seq<AnchorOp>) -> bool {
    &&& forall|i: int, j: int| 0 <= i < j < log.len() ==> (#[trigger] log[j]).time <= (#[trigger] log[i]).time
    &&& forall|i: int, j: int| 0 <= i < j < log.len() ==> (#[trigger] log[i]).id@ != (#[trigger] log[j]).id@
    &&& forall|i: int| 0 <= i < log.len() - 1 ==> ((#[trigger] log[i]).next matches Some(n) && hex_of(n@) == log[i + 1].id@)
    &&& log.len() > 0 ==> log[log.len() - 1].next is None
    &&& forall|i: int| 0 <= i < log.len() ==> if seg_end(log, i) < log.len() {
        (#[trigger] log[i]).segment_prev matches Some(SegmentLink::At(p)) && hex_of(p@) == log[seg_end(log, i)].id@
    } else {
        log[i].segment_prev == Some(SegmentLink::ChainStart)
    }
}

/// Where in the log the operation spelled `h` stands.
pub open spec fn pos_of(log: Seq<AnchorOp>, h: Seq<char>) -> int {
    choose|j: int| 0 <= j < log.len() && log[j].id@ == h
}

/// Whether some displayed commit sits on the base `op` was taken on.
pub open spec fn wanted_base(wanted: Seq<Wanted>, op: AnchorOp) -> bool {
    exists|i: int| 0 <= i < wanted.len() && opt_view(wanted[i].base) == opt_view(op.base)
}

/// How many operations from `c` on were taken on a base some displayed
/// commit sits on: the linear steps a walk over a well-formed log may
/// spend, since it hops over every other segment.
pub open spec fn scan_steps(log: Seq<AnchorOp>, wanted: Seq<Wanted>, c: int) -> nat
    decreases log.len() - c,
{
    if c < 0 || c >= log.len() {
        0
    } else {
        (if wanted_base(wanted, log[c]) { 1nat } else { 0nat }) + scan_steps(log, wanted, c + 1)
    }
}

proof fn lemma_scan_steps_shrink(log: Seq<AnchorOp>, wanted: Seq<Wanted>, c: int, d: int)
    requires
        0 <= c <= d,
    ensures
        scan_steps(log, wanted, d) <= scan_steps(log, wanted, c),
    decreases d - c,
{
    if c < d {
        lemma_scan_steps_shrink(log, wanted, c + 1, d);
    }
}

/// The anchor walk run over `log` from position `c`, each operation
/// visited as `AnchorWalk::visit` does: its anchors recorded, a stop once
/// every commit is anchored or the operation is older than `floor`, a hop
/// over a segment not worth scanning when its pointer checks out (a step
/// when it does not), a stop at the chain's first segment, and otherwise a
/// step to the operation before, spending budget.
pub open spec fn run(
    log: Seq<AnchorOp>,
    wanted: Seq<Wanted>,
    floor: i64,
    anchors: Map<Seq<char>, Seq<char>>,
    budget: nat,
    c: int,
) -> Map<Seq<char>, Seq<char>>
    decreases log.len() - c,
{
    if c < 0 || c >= log.len() {
        anchors
    } else {
        let op = log[c];
        let a = recorded(anchors, wanted, op);
        let scan = wanted_base(wanted, op) && budget > 0;
        let hop = pos_of(log, hex_of(pointer_of(op.segment_prev)->0@));
        let next = pos_of(log, hex_of(op.next->0@));
        if a.dom().len() >= wanted.len() || op.time < floor {
            a
        } else if !scan && pointer_of(op.segment_prev) is Some && c < hop < log.len() && log[hop].time <= op.time {
            run(log, wanted, floor, a, budget, hop)
        } else if !scan && op.segment_prev == Some(SegmentLink::ChainStart) {
            a
        } else if op.next is Some && budget > 0 && c < next < log.len() {
            run(log, wanted, floor, a, (budget - 1) as nat, next)
        } else {
            a
        }
    }
}

proof fn lemma_first_from(log: Seq<AnchorOp>, w: Wanted, i: int)
    requires
        0 <= i <= log.len(),
    ensures
        i <= first_from(log, w, i) <= log.len(),
        forall|m: int| i <= m < first_from(log, w, i) ==> !answers(#[trigger] log[m], w),
        first_from(log, w, i) < log.len() ==> answers(log[first_from(log, w, i)], w),
    decreases log.len() - i,
{
    if i < log.len() && !answers(log[i], w) {
        lemma_first_from(log, w, i + 1);
    }
}

proof fn lemma_seg_end_from(log: Seq<AnchorOp>, i: int, j: int)
    requires
        0 <= i < log.len(),
        i < j <= log.len(),
    ensures
        j <= seg_end_from(log, i, j) <= log.len(),
        forall|m: int| j <= m < seg_end_from(log, i, j) ==> opt_view((#[trigger] log[m]).base) == opt_view(log[i].base),
    decreases log.len() - j,
{
    if j < log.len() && opt_view(log[j].base) == opt_view(log[i].base) {
        lemma_seg_end_from(log, i, j + 1);
    }
}

proof fn lemma_pos_of(log: Seq<AnchorOp>, j: int)
    requires
        well_formed(log),
        0 <= j < log.len(),
    ensures
        pos_of(log, log[j].id@) == j,
{
    let p = pos_of(log, log[j].id@);
    assert(0 <= p < log.len() && log[p].id@ == log[j].id@);
}

/// The answer positions of displayed commits with distinct ids: the chosen
/// index for an id is the one that has it.
proof fn lemma_choose_id(wanted: Seq<Wanted>, t: int)
    requires
        0 <= t < wanted.len(),
        forall|a: int, b: int| 0 <= a < b < wanted.len() ==> (#[trigger] wanted[a]).id@ != (#[trigger] wanted[b]).id@,
    ensures
        (choose|u: int| 0 <= u < wanted.len() && wanted[u].id@ == wanted[t].id@) == t,
{
    let u = choose|u: int| 0 <= u < wanted.len() && wanted[u].id@ == wanted[t].id@;
    assert(0 <= u < wanted.len() && wanted[u].id@ == wanted[t].id@);
    if u < t {
        assert(wanted[u].id@ != wanted[t].id@);
    } else if t < u {
        assert(wanted[t].id@ != wanted[u].id@);
    }
}

/// Visiting the operation at `c` after the sweep has covered the ones
/// before it covers it too.
proof fn lemma_recorded_sweeps(log: Seq<AnchorOp>, wanted: Seq<Wanted>, c: int)
    requires
        0 <= c < log.len(),
        forall|a: int, b: int| 0 <= a < b < wanted.len() ==> (#[trigger] wanted[a]).id@ != (#[trigger] wanted[b]).id@,
    ensures
        recorded(swept(log, wanted, c), wanted, log[c]) == swept(log, wanted, c + 1),
{
    let before = swept(log, wanted, c);
    let r = recorded(before, wanted, log[c]);
    let after = swept(log, wanted, c + 1);
    assert forall|k: Seq<char>| r.dom().contains(k) <==> after.dom().contains(k) by {
        if r.dom().contains(k) {
            if !before.dom().contains(k) {
                let t = choose|t: int| 0 <= t < wanted.len() && wanted[t].id@ == k && answers(log[c], wanted[t]);
                lemma_first_from(log, wanted[t], 0);
                assert(first_answer(log, wanted[t]) <= c);
            }
        }
        if after.dom().contains(k) {
            let t = choose|t: int| 0 <= t < wanted.len() && wanted[t].id@ == k && first_answer(log, wanted[t]) < c + 1;
            lemma_first_from(log, wanted[t], 0);
            if first_answer(log, wanted[t]) == c {
                assert(answers(log[c], wanted[t]));
            }
        }
    }
    assert forall|k: Seq<char>| r.dom().contains(k) implies r[k] == after[k] by {
        if !before.dom().contains(k) {
            let t = choose|t: int| 0 <= t < wanted.len() && wanted[t].id@ == k && first_answer(log, wanted[t]) < c + 1;
            lemma_choose_id(wanted, t);
            lemma_first_from(log, wanted[t], 0);
            assert(first_answer(log, wanted[t]) == c);
        }
    }
    assert(r =~= after);
}

/// Operations in `[lo, hi)` that answer no displayed commit leave the sweep
/// where it was.
proof fn lemma_sweep_skips(log: Seq<AnchorOp>, wanted: Seq<Wanted>, lo: int, hi: int)
    requires
        0 <= lo <= hi <= log.len(),
        forall|m: int, t: int| lo <= m < hi && 0 <= t < wanted.len() ==> !answers(#[trigger] log[m], #[trigger] wanted[t]),
    ensures
        swept(log, wanted, lo) == swept(log, wanted, hi),
{
    let a = swept(log, wanted, lo);
    let b = swept(log, wanted, hi);
    assert forall|k: Seq<char>| a.dom().contains(k) <==> b.dom().contains(k) by {
        if b.dom().contains(k) {
            let t = choose|t: int| 0 <= t < wanted.len() && wanted[t].id@ == k && first_answer(log, wanted[t]) < hi;
            lemma_first_from(log, wanted[t], 0);
            if first_answer(log, wanted[t]) >= lo {
                assert(answers(log[first_answer(log, wanted[t])], wanted[t]));
            }
        }
    }
    assert(a =~= b);
}

/// Once every displayed commit is anchored, the sweep has nothing left to
/// find: a count of anchors as large as the commits shown means all of
/// them.
proof fn lemma_all_found(log: Seq<AnchorOp>, wanted: Seq<Wanted>, n: int)
    requires
        0 <= n <= log.len(),
        forall|a: int, b: int| 0 <= a < b < wanted.len() ==> (#[trigger] wanted[a]).id@ != (#[trigger] wanted[b]).id@,
        swept(log, wanted, n).dom().len() >= wanted.len(),
    ensures
        swept(log, wanted, n) == swept(log, wanted, log.len() as int),
{
    let ids = wanted.map_values(|w: Wanted| w.id@);
    let dom = swept(log, wanted, n).dom();
    assert forall|a: int, b: int| 0 <= a < ids.len() && 0 <= b < ids.len() && a != b implies ids[a] != ids[b] by {
        if a < b {
            assert(wanted[a].id@ != wanted[b].id@);
        } else {
            assert(wanted[b].id@ != wanted[a].id@);
        }
    }
    ids.unique_seq_to_set();
    assert(dom.subset_of(ids.to_set())) by {
        assert forall|k: Seq<char>| dom.contains(k) implies ids.to_set().contains(k) by {
            let t = choose|t: int| 0 <= t < wanted.len() && wanted[t].id@ == k && first_answer(log, wanted[t]) < n;
            assert(ids[t] == k);
        }
    }
    vstd::set_lib::lemma_len_subset(dom, ids.to_set());
    vstd::set_lib::lemma_subset_equality(dom, ids.to_set());
    let all = swept(log, wanted, log.len() as int);
    assert forall|k: Seq<char>| dom.contains(k) <==> all.dom().contains(k) by {
        if all.dom().contains(k) {
            let t = choose|t: int| 0 <= t < wanted.len() && wanted[t].id@ == k && first_answer(log, wanted[t]) < log.len();
            assert(ids[t] == k);
            assert(ids.to_set().contains(k));
        }
        if dom.contains(k) {
            let t = choose|t: int| 0 <= t < wanted.len() && wanted[t].id@ == k && first_answer(log, wanted[t]) < n;
            lemma_first_from(log, wanted[t], 0);
        }
    }
    assert(swept(log, wanted, n) =~= all);
}

proof fn lemma_run_from(log: Seq<AnchorOp>, wanted: Seq<Wanted>, floor: i64, budget: nat, c: int)
    requires
        well_formed(log),
        0 <= c < log.len(),
        budget >= scan_steps(log, wanted, c),
        forall|a: int, b: int| 0 <= a < b < wanted.len() ==> (#[trigger] wanted[a]).id@ != (#[trigger] wanted[b]).id@,
        forall|i: int, t: int| 0 <= i < log.len() && 0 <= t < wanted.len() && answers(#[trigger] log[i], #[trigger] wanted[t])
            ==> log[i].time >= floor,
    ensures
        run(log, wanted, floor, swept(log, wanted, c), budget, c) == swept(log, wanted, log.len() as int),
    decreases log.len() - c,
{
    let op = log[c];
    let len = log.len() as int;
    lemma_recorded_sweeps(log, wanted, c);
    let a = swept(log, wanted, c + 1);
    assert(recorded(swept(log, wanted, c), wanted, op) == a);
    if a.dom().len() >= wanted.len() {
        lemma_all_found(log, wanted, c + 1);
        return;
    }
    if op.time < floor {
        assert forall|m: int, t: int| c + 1 <= m < len && 0 <= t < wanted.len() implies !answers(#[trigger] log[m], #[trigger] wanted[t]) by {
            assert(log[m].time <= log[c].time);
        }
        lemma_sweep_skips(log, wanted, c + 1, len);
        return;
    }
    lemma_seg_end_from(log, c, c + 1);
    let e = seg_end(log, c);
    if !wanted_base(wanted, op) {
        assert forall|m: int, t: int| c + 1 <= m < e && 0 <= t < wanted.len() implies !answers(#[trigger] log[m], #[trigger] wanted[t]) by {
            assert(opt_view(log[m].base) == opt_view(op.base));
            if answers(log[m], wanted[t]) {
                assert(opt_view(wanted[t].base) == opt_view(op.base));
            }
        }
        lemma_sweep_skips(log, wanted, c + 1, e);
        if e < len {
            lemma_scan_steps_shrink(log, wanted, c, e);
            lemma_pos_of(log, e);
            assert(log[e].time <= op.time);
            lemma_run_from(log, wanted, floor, budget, e);
        } else {
            assert(op.segment_prev == Some(SegmentLink::ChainStart));
        }
    } else {
        assert(budget > 0);
        if c + 1 < len {
            lemma_pos_of(log, c + 1);
            lemma_run_from(log, wanted, floor, (budget - 1) as nat, c + 1);
        } else {
            assert(op.next is None);
        }
    }
}

/// The law the walk is held to: over a well-formed log of any length whose
/// operations on the displayed commits' bases fit the scan budget (the
/// segments on other bases are hopped over and spend none), with the
/// displayed commits' ids distinct and no operation older than the floor
/// answering any of them, the walk from the newest operation finds exactly
/// the full sweep's anchors.
pub proof fn lemma_walk_finds_the_sweep(log: Seq<AnchorOp>, wanted: Seq<Wanted>, floor: i64)
    requires
        well_formed(log),
        scan_steps(log, wanted, 0) <= SEGMENT_SCAN_CAP,
        forall|a: int, b: int| 0 <= a < b < wanted.len() ==> (#[trigger] wanted[a]).id@ != (#[trigger] wanted[b]).id@,
        forall|i: int, t: int| 0 <= i < log.len() && 0 <= t < wanted.len() && answers(#[trigger] log[i], #[trigger] wanted[t])
            ==> log[i].time >= floor,
    ensures
        run(log, wanted, floor, Map::empty(), SEGMENT_SCAN_CAP as nat, 0) == swept(log, wanted, log.len() as int),
{
    assert(swept(log, wanted, 0) =~= Map::<Seq<char>, Seq<char>>::empty()) by {
        assert forall|k: Seq<char>| !swept(log, wanted, 0).dom().contains(k) by {
            if swept(log, wanted, 0).dom().contains(k) {
                let t = choose|t: int| 0 <= t < wanted.len() && wanted[t].id@ == k && first_answer(log, wanted[t]) < 0;
                lemma_first_from(log, wanted[t], 0);
            }
        }
    }
    if log.len() > 0 {
        lemma_run_from(log, wanted, floor, SEGMENT_SCAN_CAP as nat, 0);
    }
}

} // verus!
