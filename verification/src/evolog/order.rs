//! The order of a change's operations: newest first, a tie of seconds
//! broken by operation id, and then every tie that a rewrite explains
//! settled in its favour: an operation that rewrote what another produced
//! came after it, whatever its id says.

use vstd::prelude::*;
use crate::text::{seq_lt, lemma_seq_lt_total, lemma_seq_lt_transitive, lemma_seq_lt_irreflexive};

verus! {

broadcast use vstd::seq_lib::group_to_multiset_ensures;

/// One operation that produced a commit carrying the change's id.
#[derive(Debug, Clone)]
pub struct ChangeOp {
    pub id: String,
    pub short_id: String,
    pub chain: String,
    pub verb: String,
    pub summary: String,
    pub time: i64,
    /// The commit it produced that carries the change's id.
    pub commit: String,
    pub session: Option<String>,
}

/// An operation found for a change, with the commits it rewrote.
#[derive(Debug, Clone)]
pub struct Found {
    pub op: ChangeOp,
    pub rewrote: Vec<String>,
}

/// The commits an operation rewrote, as text.
pub open spec fn rewrote_views(f: Found) -> Seq<Seq<char>> {
    f.rewrote@.map_values(|s: String| s@)
}

/// `behind` came after `ahead`: the same second, and it rewrote the commit
/// `ahead` produced.
pub open spec fn follows(ahead: Found, behind: Found) -> bool {
    ahead.op.time == behind.op.time && rewrote_views(behind).contains(ahead.op.commit@)
}

/// `a` is listed before `b` by time alone: newer, or the same second and
/// the smaller id.
pub open spec fn sorts_before(a: Found, b: Found) -> bool {
    a.op.time > b.op.time || (a.op.time == b.op.time && seq_lt(a.op.id@, b.op.id@))
}

/// Newest first, ties by id.
pub open spec fn sorted(s: Seq<Found>) -> bool {
    forall|i: int, j: int| 0 <= i < j < s.len() ==> !sorts_before(#[trigger] s[j], #[trigger] s[i])
}

/// No two operations each rewrote what the other produced in the same
/// second: the settling of ties ends.
pub open spec fn no_mutual(s: Seq<Found>) -> bool {
    forall|i: int, j: int|
        0 <= i < s.len() && 0 <= j < s.len() && i != j ==> !(follows(#[trigger] s[i], #[trigger] s[j]) && follows(
            s[j],
            s[i],
        ))
}

/// `s` with its entries at `k - 1` and `k` exchanged.
pub open spec fn swap_adj(s: Seq<Found>, k: int) -> Seq<Found> {
    s.update(k - 1, s[k]).update(k, s[k - 1])
}

proof fn lemma_sorts_before_asymmetric(a: Found, b: Found)
    ensures
        !(sorts_before(a, b) && sorts_before(b, a)),
{
    lemma_seq_lt_total(a.op.id@, b.op.id@);
}

/// Not listed before is transitive: `x` not before `y` and `y` not before
/// `z` keep `x` from being before `z`.
proof fn lemma_not_before_transitive(x: Found, y: Found, z: Found)
    requires
        !sorts_before(x, y),
        !sorts_before(y, z),
    ensures
        !sorts_before(x, z),
{
    lemma_seq_lt_total(x.op.id@, y.op.id@);
    lemma_seq_lt_total(y.op.id@, z.op.id@);
    lemma_seq_lt_total(x.op.id@, z.op.id@);
    if x.op.time == z.op.time && y.op.time == z.op.time && seq_lt(x.op.id@, z.op.id@) {
        if seq_lt(z.op.id@, y.op.id@) {
            lemma_seq_lt_transitive(x.op.id@, z.op.id@, y.op.id@);
        } else if y.op.id@ != z.op.id@ {
            lemma_seq_lt_transitive(y.op.id@, x.op.id@, z.op.id@);
        }
    }
}

/// An adjacent exchange keeps a sequence's entries.
pub proof fn lemma_adjacent_swap_multiset<A>(s: Seq<A>, k: int)
    requires
        0 < k < s.len(),
    ensures
        s.update(k - 1, s[k]).update(k, s[k - 1]).to_multiset() == s.to_multiset(),
{
    broadcast use vstd::multiset::group_multiset_axioms;
    let u = s.update(k - 1, s[k]);
    vstd::seq_lib::to_multiset_update(s, k - 1, s[k]);
    vstd::seq_lib::to_multiset_update(u, k, s[k - 1]);
    assert(s.update(k - 1, s[k]).update(k, s[k - 1]).to_multiset() =~= s.to_multiset());
}

/// An adjacent exchange keeps the entries and keeps `no_mutual`.
proof fn lemma_swap_adj(s: Seq<Found>, k: int)
    requires
        0 < k < s.len(),
    ensures
        swap_adj(s, k).len() == s.len(),
        swap_adj(s, k).to_multiset() == s.to_multiset(),
        no_mutual(s) ==> no_mutual(swap_adj(s, k)),
{
    broadcast use vstd::multiset::group_multiset_axioms;
    let t = swap_adj(s, k);
    let u = s.update(k - 1, s[k]);
    vstd::seq_lib::to_multiset_update(s, k - 1, s[k]);
    vstd::seq_lib::to_multiset_update(u, k, s[k - 1]);
    assert(t.to_multiset() =~= s.to_multiset());
    if no_mutual(s) {
        assert forall|i: int, j: int|
            0 <= i < t.len() && 0 <= j < t.len() && i != j implies !(follows(#[trigger] t[i], #[trigger] t[j])
            && follows(t[j], t[i])) by {
            let pi = if i == k - 1 { k } else if i == k { k - 1 } else { i };
            let pj = if j == k - 1 { k } else if j == k { k - 1 } else { j };
            assert(t[i] == s[pi] && t[j] == s[pj]);
        }
    }
}

/// Whether `behind` came after `ahead` in the sense of `follows`.
pub fn follows_of(ahead: &Found, behind: &Found) -> (r: bool)
    ensures
        r == follows(*ahead, *behind),
{
    if ahead.op.time != behind.op.time {
        return false;
    }
    let mut i: usize = 0;
    while i < behind.rewrote.len()
        invariant
            i <= behind.rewrote.len(),
            ahead.op.time == behind.op.time,
            forall|k: int| 0 <= k < i ==> behind.rewrote@[k]@ != ahead.op.commit@,
        decreases behind.rewrote.len() - i,
    {
        if crate::text::str_eq(behind.rewrote[i].as_str(), ahead.op.commit.as_str()) {
            proof {
                let rv = rewrote_views(*behind);
                assert(rv.len() == behind.rewrote@.len());
                assert(rv[i as int] == ahead.op.commit@);
                assert(rv.contains(ahead.op.commit@));
            }
            return true;
        }
        i += 1;
    }
    assert forall|k: int| 0 <= k < rewrote_views(*behind).len() implies rewrote_views(*behind)[k] != ahead.op.commit@ by {
        assert(behind.rewrote@[k]@ != ahead.op.commit@);
    }
    false
}

/// Whether `a` is listed before `b` by time alone.
pub fn sorts_before_of(a: &Found, b: &Found) -> (r: bool)
    ensures
        r == sorts_before(*a, *b),
{
    if a.op.time != b.op.time {
        return a.op.time > b.op.time;
    }
    crate::text::chars_lt(&crate::text::chars_of(a.op.id.as_str()), &crate::text::chars_of(b.op.id.as_str()))
}

/// Exchange the entries at `k - 1` and `k`.
fn swap_at(v: &mut Vec<Found>, k: usize)
    requires
        0 < k < old(v)@.len(),
    ensures
        final(v)@ == swap_adj(old(v)@, k as int),
{
    let x = v.remove(k - 1);
    v.insert(k, x);
    assert(v@ =~= swap_adj(old(v)@, k as int));
}

/// The operations listed newest first, a tie of seconds broken by id; equal
/// keys keep their order. The entries are the same, and so is `no_mutual`.
pub fn sort_found(found: Vec<Found>) -> (r: Vec<Found>)
    ensures
        sorted(r@),
        r@.to_multiset() == found@.to_multiset(),
        no_mutual(found@) ==> no_mutual(r@),
{
    let mut v = found;
    let ghost orig = found@;
    let n = v.len();
    let mut k: usize = 1;
    if n == 0 {
        return v;
    }
    while k < n
        invariant
            1 <= k <= n,
            n == v@.len(),
            v@.to_multiset() == orig.to_multiset(),
            no_mutual(orig) ==> no_mutual(v@),
            forall|a: int, b: int| 0 <= a < b < k ==> !sorts_before(#[trigger] v@[b], #[trigger] v@[a]),
        decreases n - k,
    {
        let mut j: usize = k;
        while j > 0 && sorts_before_of(&v[j], &v[j - 1])
            invariant
                0 <= j <= k < n,
                n == v@.len(),
                v@.to_multiset() == orig.to_multiset(),
                no_mutual(orig) ==> no_mutual(v@),
                forall|a: int, b: int|
                    0 <= a < b <= k && a != j && b != j ==> !sorts_before(#[trigger] v@[b], #[trigger] v@[a]),
                forall|b: int| j < b <= k ==> sorts_before(v@[j as int], #[trigger] v@[b]),
            decreases j,
        {
            let ghost w = v@;
            swap_at(&mut v, j);
            proof {
                lemma_swap_adj(w, j as int);
                assert forall|a: int, b: int|
                    0 <= a < b <= k && a != j - 1 && b != j - 1 implies !sorts_before(
                    #[trigger] v@[b],
                    #[trigger] v@[a],
                ) by {
                    let pa = if a == j { j - 1 } else { a };
                    let pb = if b == j { j - 1 } else { b };
                    assert(v@[a] == w[pa] && v@[b] == w[pb]);
                }
            }
            j -= 1;
        }
        proof {
            assert forall|a: int, b: int| 0 <= a < b < k + 1 implies !sorts_before(#[trigger] v@[b], #[trigger] v@[a]) by {
                if b == j {
                    if a < j - 1 {
                        assert(!sorts_before(v@[j - 1], v@[a]));
                        lemma_not_before_transitive(v@[j as int], v@[j - 1], v@[a]);
                    }
                } else if a == j {
                    lemma_sorts_before_asymmetric(v@[a], v@[b]);
                }
            }
        }
        k += 1;
    }
    v
}

/// Newest first by time alone.
pub open spec fn time_ordered(s: Seq<Found>) -> bool {
    forall|i: int, j: int| 0 <= i < j < s.len() ==> (#[trigger] s[i]).op.time >= (#[trigger] s[j]).op.time
}

proof fn lemma_swap_keeps_time(s: Seq<Found>, k: int)
    requires
        0 < k < s.len(),
        s[k - 1].op.time == s[k].op.time,
        time_ordered(s),
    ensures
        time_ordered(swap_adj(s, k)),
{
    let t = swap_adj(s, k);
    assert forall|i: int, j: int| 0 <= i < j < t.len() implies (#[trigger] t[i]).op.time >= (#[trigger] t[j]).op.time by {
        let pi = if i == k - 1 { k } else if i == k { k - 1 } else { i };
        let pj = if j == k - 1 { k } else if j == k { k - 1 } else { j };
        assert(t[i] == s[pi] && t[j] == s[pj]);
        if pi > pj {
            assert(s[pj].op.time >= s[pi].op.time);
        }
    }
}

/// One pass over `s` from position `i` on: wherever an entry follows the
/// one before it, the two change places; and whether any did.
pub open spec fn pass(s: Seq<Found>, i: int) -> (Seq<Found>, bool)
    decreases s.len() - i,
{
    if i <= 0 || i >= s.len() {
        (s, false)
    } else {
        let swapped = follows(s[i - 1], s[i]);
        let t = if swapped { swap_adj(s, i) } else { s };
        let r = pass(t, i + 1);
        (r.0, swapped || r.1)
    }
}

/// How many of the first `n` entries of `s` are followed by `x`.
pub open spec fn followed_count(s: Seq<Found>, n: int, x: Found) -> nat
    decreases n,
{
    if n <= 0 {
        0
    } else {
        followed_count(s, n - 1, x) + if follows(s[n - 1], x) { 1nat } else { 0nat }
    }
}

/// The pairs among the first `n` entries whose later entry follows the
/// earlier one: the ties a pass has yet to settle.
pub open spec fn unsettled_upto(s: Seq<Found>, n: int) -> nat
    decreases n,
{
    if n <= 0 {
        0
    } else {
        unsettled_upto(s, n - 1) + followed_count(s, n - 1, s[n - 1])
    }
}

/// The pairs of `s` whose later entry follows the earlier one.
pub open spec fn unsettled(s: Seq<Found>) -> nat {
    unsettled_upto(s, s.len() as int)
}

proof fn lemma_count_prefix(s: Seq<Found>, t: Seq<Found>, n: int, x: Found)
    requires
        0 <= n <= s.len(),
        n <= t.len(),
        forall|k: int| 0 <= k < n ==> s[k] == t[k],
    ensures
        followed_count(s, n, x) == followed_count(t, n, x),
    decreases n,
{
    if n > 0 {
        lemma_count_prefix(s, t, n - 1, x);
    }
}

proof fn lemma_unsettled_prefix(s: Seq<Found>, t: Seq<Found>, n: int)
    requires
        0 <= n <= s.len(),
        n <= t.len(),
        forall|k: int| 0 <= k < n ==> s[k] == t[k],
    ensures
        unsettled_upto(s, n) == unsettled_upto(t, n),
    decreases n,
{
    if n > 0 {
        lemma_unsettled_prefix(s, t, n - 1);
        lemma_count_prefix(s, t, n - 1, s[n - 1]);
    }
}

proof fn lemma_count_swapped(s: Seq<Found>, k: int, n: int, x: Found)
    requires
        0 < k < s.len(),
        k + 1 <= n <= s.len(),
    ensures
        followed_count(swap_adj(s, k), n, x) == followed_count(s, n, x),
    decreases n,
{
    let t = swap_adj(s, k);
    if n == k + 1 {
        lemma_count_prefix(s, t, k - 1, x);
        assert(followed_count(t, k, x) == followed_count(t, k - 1, x) + (if follows(t[k - 1], x) { 1nat } else { 0nat }));
        assert(followed_count(s, k, x) == followed_count(s, k - 1, x) + (if follows(s[k - 1], x) { 1nat } else { 0nat }));
        assert(followed_count(t, k + 1, x) == followed_count(t, k, x) + (if follows(t[k], x) { 1nat } else { 0nat }));
        assert(followed_count(s, k + 1, x) == followed_count(s, k, x) + (if follows(s[k], x) { 1nat } else { 0nat }));
    } else {
        lemma_count_swapped(s, k, n - 1, x);
        assert(t[n - 1] == s[n - 1]);
    }
}

/// An adjacent exchange changes the unsettled pairs by the one pair it
/// turns around.
proof fn lemma_unsettled_swapped(s: Seq<Found>, k: int, n: int)
    requires
        0 < k < s.len(),
        k + 1 <= n <= s.len(),
    ensures
        unsettled_upto(swap_adj(s, k), n) + (if follows(s[k - 1], s[k]) { 1nat } else { 0nat })
            == unsettled_upto(s, n) + (if follows(s[k], s[k - 1]) { 1nat } else { 0nat }),
    decreases n,
{
    let t = swap_adj(s, k);
    if n == k + 1 {
        lemma_unsettled_prefix(s, t, k - 1);
        lemma_count_prefix(s, t, k - 1, s[k]);
        lemma_count_prefix(s, t, k - 1, s[k - 1]);
        assert(t[k - 1] == s[k] && t[k] == s[k - 1]);
        assert(unsettled_upto(t, k + 1) == unsettled_upto(t, k - 1) + followed_count(t, k - 1, t[k - 1])
            + followed_count(t, k, t[k]));
        assert(unsettled_upto(s, k + 1) == unsettled_upto(s, k - 1) + followed_count(s, k - 1, s[k - 1])
            + followed_count(s, k, s[k]));
    } else {
        lemma_unsettled_swapped(s, k, n - 1);
        lemma_count_swapped(s, k, n - 1, s[n - 1]);
        assert(t[n - 1] == s[n - 1]);
    }
}

/// A pass keeps the entries and `no_mutual`, and each exchange it makes
/// settles one pair for good: the unsettled pairs drop by at least one when
/// it exchanged anything, and it leaves `s` as it was when it did not.
pub proof fn lemma_pass(s: Seq<Found>, i: int)
    requires
        no_mutual(s),
        1 <= i,
    ensures
        pass(s, i).0.len() == s.len(),
        pass(s, i).0.to_multiset() == s.to_multiset(),
        no_mutual(pass(s, i).0),
        unsettled(pass(s, i).0) + (if pass(s, i).1 { 1nat } else { 0nat }) <= unsettled(s),
        !pass(s, i).1 ==> pass(s, i).0 == s,
        time_ordered(s) ==> time_ordered(pass(s, i).0),
    decreases s.len() - i,
{
    if i < s.len() {
        if follows(s[i - 1], s[i]) {
            let t = swap_adj(s, i);
            lemma_swap_adj(s, i);
            if time_ordered(s) {
                lemma_swap_keeps_time(s, i);
            }
            lemma_unsettled_swapped(s, i, s.len() as int);
            assert(!follows(s[i], s[i - 1]));
            lemma_pass(t, i + 1);
        } else {
            lemma_pass(s, i + 1);
        }
    }
}

/// The operations with every explained tie settled: passes repeat until
/// one exchanges nothing.
pub open spec fn settle(s: Seq<Found>) -> Seq<Found>
    decreases unsettled(s),
    when no_mutual(s)
{
    let r = pass(s, 1);
    if r.1 {
        proof {
            lemma_pass(s, 1);
        }
        settle(r.0)
    } else {
        s
    }
}

/// Settling moves no operation across a second: what was newest first
/// stays newest first.
pub proof fn lemma_settle_keeps_time(s: Seq<Found>)
    requires
        no_mutual(s),
        time_ordered(s),
    ensures
        time_ordered(settle(s)),
    decreases unsettled(s),
{
    lemma_pass(s, 1);
    if pass(s, 1).1 {
        lemma_settle_keeps_time(pass(s, 1).0);
    }
}

/// Settle the ties a rewrite explains, pass after pass, until a pass
/// exchanges nothing.
pub fn settle_found(found: Vec<Found>) -> (r: Vec<Found>)
    requires
        no_mutual(found@),
    ensures
        r@ == settle(found@),
        r@.to_multiset() == found@.to_multiset(),
        !pass(r@, 1).1,
{
    let mut v = found;
    let ghost goal = settle(found@);
    let mut again = true;
    while again
        invariant
            no_mutual(v@),
            v@.to_multiset() == found@.to_multiset(),
            again ==> settle(v@) == goal,
            !again ==> v@ == goal && !pass(v@, 1).1,
        decreases (if again { unsettled(v@) + 1 } else { 0 }),
    {
        let ghost before = v@;
        again = false;
        let mut i: usize = 1;
        while i < v.len()
            invariant
                1 <= i,
                i <= before.len() || i == 1,
                v@.len() == before.len(),
                no_mutual(before),
                no_mutual(v@),
                v@.to_multiset() == before.to_multiset(),
                pass(before, 1) == (pass(v@, i as int).0, again || pass(v@, i as int).1),
            decreases v@.len() - i,
        {
            let ghost w = v@;
            if follows_of(&v[i - 1], &v[i]) {
                swap_at(&mut v, i);
                again = true;
                proof {
                    lemma_swap_adj(w, i as int);
                }
            }
            i += 1;
        }
        proof {
            lemma_pass(before, 1);
        }
    }
    v
}

/// The operations themselves.
pub open spec fn ops_of(s: Seq<Found>) -> Seq<ChangeOp> {
    s.map_values(|f: Found| f.op)
}

/// The operations shown: all of them, or the first `limit`.
pub open spec fn listed(s: Seq<Found>, limit: Option<usize>) -> Seq<ChangeOp> {
    match limit {
        Some(n) => if n < s.len() { ops_of(s).take(n as int) } else { ops_of(s) },
        None => ops_of(s),
    }
}

/// A change's operations as `ff evolog <rev>` lists them: newest first, a
/// tie of seconds by id, every tie a rewrite explains settled in its
/// favour, and no more than `limit`.
pub fn order_operations(found: Vec<Found>, limit: Option<usize>) -> (r: Vec<ChangeOp>)
    requires
        no_mutual(found@),
    ensures
        exists|s: Seq<Found>| #![auto]
            sorted(s) && s.to_multiset() == found@.to_multiset() && r@ == listed(settle(s), limit),
        forall|i: int, j: int| 0 <= i < j < r@.len() ==> (#[trigger] r@[i]).time >= (#[trigger] r@[j]).time,
{
    let sorted_v = sort_found(found);
    let ghost s = sorted_v@;
    proof {
        assert forall|i: int, j: int| 0 <= i < j < s.len() implies (#[trigger] s[i]).op.time >= (#[trigger] s[j]).op.time by {
            assert(!sorts_before(s[j], s[i]));
        }
        lemma_settle_keeps_time(s);
    }
    let mut v = settle_found(sorted_v);
    let keep = match limit {
        Some(n) => if n < v.len() { n } else { v.len() },
        None => v.len(),
    };
    let ghost sv = v@;
    let mut out: Vec<ChangeOp> = Vec::new();
    let mut i: usize = 0;
    while i < keep
        invariant
            keep <= sv.len(),
            i <= keep,
            v@ == sv.skip(i as int),
            out@ == ops_of(sv).take(i as int),
        decreases keep - i,
    {
        let f = v.remove(0);
        proof {
            assert(f == sv[i as int]);
            assert(v@ =~= sv.skip(i + 1));
        }
        out.push(f.op);
        proof {
            assert(out@ =~= ops_of(sv).take(i + 1));
        }
        i += 1;
    }
    proof {
        assert(out@ =~= listed(sv, limit));
    }
    out
}

} // verus!
