//! The map: a skeleton of the local branches that answers "where did I
//! leave that idea?": the tips, the merges, the forks, and the roots, with
//! the linear runs between them contracted into elision nodes. The walk
//! stops where the frontier converges on one commit or the depth cap runs
//! out; it is a pure read and knows nothing about rendering.
//!
//! Here is every decision the map makes: which branches rank in, the walk
//! (as a machine that asks for each commit it needs and is told what the
//! commit holds), which walked commits are structure, the contracted graph,
//! and the order its rows read in.

use vstd::prelude::*;
use crate::oid::Oid;
use crate::text::{seq_le, seq_lt, string_views};

verus! {

/// Which branches the map ranks in, before the forced ones are appended.
#[derive(Debug, Clone)]
pub struct MapOptions {
    /// How many local branches to rank in; `None` is every one.
    pub branches: Option<usize>,
}

impl Default for MapOptions {
    fn default() -> (r: MapOptions)
        ensures
            r.branches is None,
    {
        MapOptions { branches: None }
    }
}

/// The skeleton itself, newest to oldest, with the open change on top.
#[derive(Debug, Clone)]
pub struct BranchMap {
    pub rows: Vec<MapRow>,
    /// The walk stopped on the depth cap rather than converging.
    pub truncated: bool,
}

/// One row of the skeleton.
#[derive(Debug, Clone)]
pub struct MapRow {
    pub node: MapNode,
    /// Row indices of this node's parents, each greater than the row's own
    /// index, so the rows read top-down as newest-to-oldest.
    pub parents: Vec<usize>,
}

/// The three shapes a skeleton row can take.
#[derive(Debug, Clone)]
pub enum MapNode {
    Open {
        branch: String,
        id: Option<String>,
        subject: Option<String>,
        pending: Option<String>,
        time: Option<i64>,
        clean: bool,
        born: bool,
    },
    Commit {
        id: String,
        short_id: String,
        subject: String,
        time: i64,
        refs: Vec<MapRef>,
    },
    Elided {
        /// Commits contracted away; `None` marks a frontier: parents this
        /// walk did not follow.
        count: Option<usize>,
    },
}

/// A branch's claim on a commit node.
#[derive(Debug, Clone)]
pub struct MapRef {
    pub name: String,
    pub current: bool,
    pub anonymous: bool,
    /// Files in the parked change waiting on this branch, when one is.
    pub parked: Option<usize>,
    pub pending_description: Option<String>,
}

/// A tip as the ranking sees it: the branch, its commit, its committer time.
pub type Tip = (String, Oid, i64);

/// A tip's view: name, commit bytes, time.
pub open spec fn tip_view(t: Tip) -> (Seq<char>, Seq<u8>, i64) {
    (t.0@, t.1@, t.2)
}

/// The tips as views.
pub open spec fn tips_view(ts: Seq<Tip>) -> Seq<(Seq<char>, Seq<u8>, i64)> {
    ts.map_values(|t: Tip| tip_view(t))
}

/// Whether `a` ranks no lower than `b`: newer first, equal times broken by
/// name, a clock accident the name settles.
pub open spec fn ranks_before(a: (Seq<char>, Seq<u8>, i64), b: (Seq<char>, Seq<u8>, i64)) -> bool {
    a.2 > b.2 || (a.2 == b.2 && seq_le(a.0, b.0))
}

/// Ranked: newest tip first, equal times in name order.
pub open spec fn ranked(ts: Seq<(Seq<char>, Seq<u8>, i64)>) -> bool {
    forall|i: int, j: int| 0 <= i < j < ts.len() ==> ranks_before(ts[i], ts[j])
}

/// The tip order is transitive.
proof fn lemma_ranks_transitive(a: (Seq<char>, Seq<u8>, i64), b: (Seq<char>, Seq<u8>, i64), c: (Seq<char>, Seq<u8>, i64))
    requires
        ranks_before(a, b),
        ranks_before(b, c),
    ensures
        ranks_before(a, c),
{
    if a.2 == b.2 && b.2 == c.2 {
        crate::text::lemma_seq_le_transitive(a.0, b.0, c.0);
    }
}

/// The tips ranked: newest first, equal times by name, every tip kept.
pub fn rank_tips(tips: Vec<Tip>) -> (r: Vec<Tip>)
    ensures
        ranked(tips_view(r@)),
        tips_view(r@).to_multiset() == tips_view(tips@).to_multiset(),
{
    let mut out: Vec<Tip> = Vec::new();
    let mut i: usize = 0;
    proof {
        assert(tips_view(tips@).take(0) =~= Seq::<(Seq<char>, Seq<u8>, i64)>::empty());
        assert(tips_view(out@) =~= Seq::<(Seq<char>, Seq<u8>, i64)>::empty());
    }
    while i < tips.len()
        invariant
            i <= tips@.len(),
            ranked(tips_view(out@)),
            tips_view(out@).to_multiset() == tips_view(tips@).take(i as int).to_multiset(),
        decreases tips.len() - i,
    {
        let x = &tips[i];
        let xn = crate::text::chars_of(x.0.as_str());
        let mut p: usize = 0;
        while p < out.len() && !(x.2 > out[p].2 || (x.2 == out[p].2 && crate::text::chars_lt(&xn, &crate::text::chars_of(out[p].0.as_str()))))
            invariant
                p <= out@.len(),
                xn@ == x.0@,
                forall|k: int| 0 <= k < p ==> ranks_before(tip_view(#[trigger] out@[k]), tip_view(*x)),
            decreases out.len() - p,
        {
            proof {
                crate::text::lemma_seq_lt_total(xn@, out@[p as int].0@);
            }
            p += 1;
        }
        let ghost before = tips_view(out@);
        let ghost xv = tip_view(*x);
        proof {
            if p < out@.len() {
                assert(xv.2 > before[p as int].2 || (xv.2 == before[p as int].2 && seq_lt(xv.0, before[p as int].0)));
            }
        }
        out.insert(p, (x.0.clone(), x.1, x.2));
        proof {
            assert(tips_view(out@) =~= before.insert(p as int, xv));
            vstd::seq_lib::to_multiset_insert(before, p as int, xv);
            assert(tips_view(tips@).take(i + 1) =~= tips_view(tips@).take(i as int).push(xv));
            vstd::seq_lib::to_multiset_build(tips_view(tips@).take(i as int), xv);
            assert forall|a: int, b: int| 0 <= a < b < tips_view(out@).len() implies ranks_before(tips_view(out@)[a], tips_view(out@)[b]) by {
                let s = tips_view(out@);
                if b < p {
                    assert(s[a] == before[a] && s[b] == before[b]);
                } else if b == p {
                    assert(s[a] == before[a]);
                    assert(ranks_before(tip_view(out@[a]), xv));
                } else if a < p {
                    assert(s[a] == before[a] && s[b] == before[b - 1]);
                    assert(ranks_before(before[a], xv));
                    assert(ranks_before(xv, before[p as int]));
                    if b - 1 > p {
                        lemma_ranks_transitive(xv, before[p as int], before[b - 1]);
                    }
                    lemma_ranks_transitive(before[a], xv, before[b - 1]);
                } else if a == p {
                    assert(s[b] == before[b - 1]);
                    assert(ranks_before(xv, before[p as int]));
                    if b - 1 > p {
                        lemma_ranks_transitive(xv, before[p as int], before[b - 1]);
                    }
                } else {
                    assert(s[a] == before[a - 1] && s[b] == before[b - 1]);
                }
            }
        }
        i += 1;
    }
    proof {
        assert(tips_view(tips@).take(tips@.len() as int) =~= tips_view(tips@));
    }
    out
}

/// The names the map forces in at whatever rank: the branch underfoot, and
/// a local trunk, each when it has a tip.
pub open spec fn forced_names(names: Seq<Seq<char>>, current: Seq<char>, trunk: Option<Seq<char>>) -> Seq<Seq<char>> {
    let first: Seq<Seq<char>> = if names.contains(current) { seq![current] } else { seq![] };
    match trunk {
        Some(t) => if names.contains(t) && !first.contains(t) { first.push(t) } else { first },
        None => first,
    }
}

/// The ranked names the limit lets in, then each forced name not among them.
pub open spec fn picked_names(names: Seq<Seq<char>>, limit: nat, forced: Seq<Seq<char>>) -> Seq<Seq<char>> {
    let base = names.take(if limit < names.len() { limit as int } else { names.len() as int });
    base + forced.filter(|f: Seq<char>| !base.contains(f))
}

/// Past the budget, the forced names stay and the others are cut from the
/// end: the first unforced names that fit, then the forced ones.
pub open spec fn capped(picked: Seq<Seq<char>>, forced: Seq<Seq<char>>, budget: nat) -> Seq<Seq<char>> {
    if picked.len() <= budget {
        picked
    } else {
        let kept_forced = forced.filter(|f: Seq<char>| picked.contains(f));
        let rest = picked.filter(|n: Seq<char>| !kept_forced.contains(n));
        let room = if kept_forced.len() <= budget { (budget - kept_forced.len()) as nat } else { 0 };
        rest.take(if room < rest.len() { room as int } else { rest.len() as int }) + kept_forced
    }
}

/// What a filter keeps came from the list filtered.
proof fn lemma_filter_from(s: Seq<Seq<char>>, pred: spec_fn(Seq<char>) -> bool, x: Seq<char>)
    requires
        s.filter(pred).contains(x),
    ensures
        s.contains(x),
    decreases s.len(),
{
    if s.len() == 0 {
        assert(s.filter(pred) =~= Seq::<Seq<char>>::empty());
    } else {
        assert(s =~= s.drop_last().push(s.last()));
        s.drop_last().lemma_filter_push(s.last(), pred);
        if x != s.last() {
            let f = s.drop_last().filter(pred);
            let j = choose|j: int| 0 <= j < s.filter(pred).len() && s.filter(pred)[j] == x;
            if pred(s.last()) {
                assert(s.filter(pred) == f.push(s.last()));
                assert(j < f.len());
                assert(f[j] == x);
            } else {
                assert(s.filter(pred) == f);
            }
            assert(f.contains(x));
            lemma_filter_from(s.drop_last(), pred, x);
            let k = choose|k: int| 0 <= k < s.drop_last().len() && s.drop_last()[k] == x;
            assert(s[k] == x);
        } else {
            assert(s[s.len() - 1] == x);
        }
    }
}

fn contains_str(v: &Vec<String>, x: &str) -> (r: bool)
    ensures
        r == string_views(v@).contains(x@),
{
    let mut i: usize = 0;
    while i < v.len()
        invariant
            i <= v@.len(),
            forall|k: int| 0 <= k < i ==> v@[k]@ != x@,
        decreases v.len() - i,
    {
        if crate::text::str_eq(v[i].as_str(), x) {
            assert(string_views(v@)[i as int] == x@);
            return true;
        }
        i += 1;
    }
    proof {
        if string_views(v@).contains(x@) {
            let k = choose|k: int| 0 <= k < string_views(v@).len() && string_views(v@)[k] == x@;
            assert(v@[k]@ == x@);
        }
    }
    false
}

/// The names the map shows, given the ranked tips: the ranked names the
/// limit lets in and the forced ones, cut to the reachability mask's 64
/// bits (63 when a detached HEAD takes one) with the forced names kept.
pub fn pick_branches(ranked_tips: &Vec<Tip>, current: &str, trunk: Option<&str>, limit: Option<usize>, detached: bool) -> (r: Vec<String>)
    ensures
        ({
            let names = tips_view(ranked_tips@).map_values(|t: (Seq<char>, Seq<u8>, i64)| t.0);
            let tv = match trunk { Some(t) => Some(t@), None => None };
            let forced = forced_names(names, current@, tv);
            let lim: nat = match limit { Some(l) => l as nat, None => usize::MAX as nat };
            string_views(r@) == capped(picked_names(names, lim, forced), forced, if detached { 63 } else { 64 })
        }),
{
    let ghost names = tips_view(ranked_tips@).map_values(|t: (Seq<char>, Seq<u8>, i64)| t.0);
    let mut all: Vec<String> = Vec::new();
    let mut i: usize = 0;
    while i < ranked_tips.len()
        invariant
            i <= ranked_tips@.len(),
            names == tips_view(ranked_tips@).map_values(|t: (Seq<char>, Seq<u8>, i64)| t.0),
            string_views(all@) == names.take(i as int),
        decreases ranked_tips.len() - i,
    {
        let ghost before = string_views(all@);
        all.push(ranked_tips[i].0.clone());
        assert(string_views(all@) =~= before.push(ranked_tips@[i as int].0@));
        assert(names[i as int] == ranked_tips@[i as int].0@);
        i += 1;
        assert(string_views(all@) =~= names.take(i as int));
    }
    assert(names.take(names.len() as int) =~= names);
    // Forced names.
    let mut forced: Vec<String> = Vec::new();
    assert(string_views(all@) =~= names);
    if contains_str(&all, current) {
        forced.push(crate::text::owned(current));
        assert(string_views(forced@) =~= seq![current@]);
    } else {
        assert(string_views(forced@) =~= Seq::<Seq<char>>::empty());
    }
    let ghost first = string_views(forced@);
    match trunk {
        Some(t) => {
            if contains_str(&all, t) && !contains_str(&forced, t) {
                forced.push(crate::text::owned(t));
                assert(string_views(forced@) =~= first.push(t@));
                proof {
                    if first.len() == 1 {
                        assert(first[0] != t@);
                    }
                }
            }
        },
        None => {},
    }
    let ghost tv = match trunk { Some(t) => Some(t@), None => None };
    assert(string_views(forced@) =~= forced_names(names, current@, tv));
    assert(string_views(forced@).no_duplicates());
    // The ranked names the limit lets in.
    let lim: usize = match limit { Some(l) => l, None => usize::MAX };
    let take = if lim < all.len() { lim } else { all.len() };
    let mut picked: Vec<String> = Vec::new();
    let mut k: usize = 0;
    while k < take
        invariant
            k <= take <= all@.len(),
            string_views(picked@) == string_views(all@).take(k as int),
        decreases take - k,
    {
        let ghost before = string_views(picked@);
        picked.push(all[k].clone());
        assert(string_views(picked@) =~= before.push(all@[k as int]@));
        assert(string_views(all@)[k as int] == all@[k as int]@);
        k += 1;
        assert(string_views(picked@) =~= string_views(all@).take(k as int));
    }
    let ghost base = string_views(picked@);
    let mut f: usize = 0;
    while f < forced.len()
        invariant
            f <= forced@.len(),
            string_views(forced@).no_duplicates(),
            base == names.take(take as int),
            string_views(picked@) == base + string_views(forced@).take(f as int).filter(|x: Seq<char>| !base.contains(x)),
        decreases forced.len() - f,
    {
        proof {
            assert(string_views(forced@).take(f + 1) =~= string_views(forced@).take(f as int).push(forced@[f as int]@));
            string_views(forced@).take(f as int).lemma_filter_push(forced@[f as int]@, |x: Seq<char>| !base.contains(x));
        }
        let ghost before = string_views(picked@);
        let present = contains_str(&picked, forced[f].as_str());
        proof {
            // What is in `picked` but not in `base` came from the forced
            // names, which are distinct, so this one is only in `picked`
            // when it is in `base`.
            let fx = forced@[f as int]@;
            if present && !base.contains(fx) {
                let j = choose|j: int| 0 <= j < before.len() && before[j] == fx;
                let tail = string_views(forced@).take(f as int).filter(|x: Seq<char>| !base.contains(x));
                assert(j >= base.len());
                assert(before[j] == tail[j - base.len()]);
                assert(tail.contains(fx));
                lemma_filter_from(string_views(forced@).take(f as int), |x: Seq<char>| !base.contains(x), fx);
                assert(string_views(forced@).take(f as int).contains(fx));
                let m = choose|m: int| 0 <= m < f && string_views(forced@).take(f as int)[m] == fx;
                assert(string_views(forced@)[m] == string_views(forced@)[f as int]);
                assert(string_views(forced@).no_duplicates());
            }
            if !present && base.contains(fx) {
                let j = choose|j: int| 0 <= j < base.len() && base[j] == fx;
                assert(before[j] == fx);
            }
        }
        if !present {
            picked.push(forced[f].clone());
            assert(string_views(picked@) =~= before.push(forced@[f as int]@));
        }
        f += 1;
    }
    proof {
        assert(string_views(forced@).take(forced@.len() as int) =~= string_views(forced@));
        assert(string_views(all@) == names);
    }
    let budget: usize = if detached { 63 } else { 64 };
    if picked.len() <= budget {
        return picked;
    }
    cap_picked(picked, forced, budget)
}

/// The cut past the budget: the forced names that made it in stay, and the
/// others are kept from the front while they fit.
fn cap_picked(picked: Vec<String>, forced: Vec<String>, budget: usize) -> (r: Vec<String>)
    requires
        picked@.len() > budget,
    ensures
        string_views(r@) == capped(string_views(picked@), string_views(forced@), budget as nat),
{
    let ghost pv = string_views(picked@);
    let ghost fv = string_views(forced@);
    let mut kept_forced: Vec<String> = Vec::new();
    let mut i: usize = 0;
    while i < forced.len()
        invariant
            i <= forced@.len(),
            pv == string_views(picked@),
            fv == string_views(forced@),
            string_views(kept_forced@) == fv.take(i as int).filter(|f: Seq<char>| pv.contains(f)),
        decreases forced.len() - i,
    {
        proof {
            assert(fv.take(i + 1) =~= fv.take(i as int).push(fv[i as int]));
            fv.take(i as int).lemma_filter_push(fv[i as int], |f: Seq<char>| pv.contains(f));
        }
        let ghost before = string_views(kept_forced@);
        if contains_str(&picked, forced[i].as_str()) {
            kept_forced.push(forced[i].clone());
            assert(string_views(kept_forced@) =~= before.push(fv[i as int]));
        }
        i += 1;
    }
    assert(fv.take(fv.len() as int) =~= fv);
    let ghost kf = string_views(kept_forced@);
    let room: usize = if kept_forced.len() <= budget { budget - kept_forced.len() } else { 0 };
    let mut kept: Vec<String> = Vec::new();
    let mut j: usize = 0;
    // How many unforced names have been seen, kept or not.
    let ghost mut seen: Seq<Seq<char>> = Seq::empty();
    while j < picked.len()
        invariant
            j <= picked@.len(),
            pv == string_views(picked@),
            kf == string_views(kept_forced@),
            seen == pv.take(j as int).filter(|n: Seq<char>| !kf.contains(n)),
            string_views(kept@) == seen.take(if room < seen.len() { room as int } else { seen.len() as int }),
        decreases picked.len() - j,
    {
        proof {
            assert(pv.take(j + 1) =~= pv.take(j as int).push(pv[j as int]));
            pv.take(j as int).lemma_filter_push(pv[j as int], |n: Seq<char>| !kf.contains(n));
        }
        let ghost before = string_views(kept@);
        let is_forced = contains_str(&kept_forced, picked[j].as_str());
        if !is_forced {
            if kept.len() < room {
                kept.push(picked[j].clone());
                assert(string_views(kept@) =~= before.push(pv[j as int]));
            }
        }
        proof {
            let next = pv.take(j + 1).filter(|n: Seq<char>| !kf.contains(n));
            if !is_forced {
                assert(next =~= seen.push(pv[j as int]));
                if before.len() < room {
                    assert(before.len() == seen.len());
                    assert(next.take(next.len() as int) =~= seen.take(seen.len() as int).push(pv[j as int]));
                    assert(string_views(kept@) =~= next.take(if room < next.len() { room as int } else { next.len() as int }));
                } else {
                    assert(next.take(room as int) =~= seen.take(room as int));
                }
            }
            seen = next;
        }
        j += 1;
    }
    proof {
        assert(pv.take(pv.len() as int) =~= pv);
    }
    let mut out = kept;
    let mut k: usize = 0;
    let ghost head = string_views(out@);
    while k < kept_forced.len()
        invariant
            k <= kept_forced@.len(),
            kf == string_views(kept_forced@),
            string_views(out@) == head + kf.take(k as int),
        decreases kept_forced.len() - k,
    {
        let ghost before = string_views(out@);
        out.push(kept_forced[k].clone());
        assert(string_views(out@) =~= before.push(kept_forced@[k as int]@));
        assert(kf[k as int] == kept_forced@[k as int]@);
        k += 1;
        assert(string_views(out@) =~= head + kf.take(k as int));
    }
    assert(kf.take(kf.len() as int) =~= kf);
    out
}


/// The commit a branch's tip is, for the first tip of that name.
pub open spec fn tip_of(tips: Seq<(Seq<char>, Seq<u8>, i64)>, name: Seq<char>) -> Option<Seq<u8>>
    decreases tips.len(),
{
    if tips.len() == 0 {
        None
    } else if tips[0].0 == name {
        Some(tips[0].1)
    } else {
        tip_of(tips.drop_first(), name)
    }
}

/// The walk's sources for the picked names: each name's tip, in order,
/// each commit once.
pub open spec fn sources_of(tips: Seq<(Seq<char>, Seq<u8>, i64)>, picked: Seq<Seq<char>>) -> Seq<Seq<u8>>
    decreases picked.len(),
{
    if picked.len() == 0 {
        Seq::empty()
    } else {
        let acc = sources_of(tips, picked.drop_last());
        match tip_of(tips, picked.last()) {
            Some(id) => if acc.contains(id) { acc } else { acc.push(id) },
            None => acc,
        }
    }
}

/// The ids of a list of commits.
pub open spec fn oids(v: Seq<Oid>) -> Seq<Seq<u8>> {
    v.map_values(|o: Oid| o@)
}

fn tip_lookup(tips: &Vec<Tip>, name: &str) -> (r: Option<Oid>)
    ensures
        match tip_of(tips_view(tips@), name@) {
            Some(id) => r matches Some(o) && o@ == id,
            None => r is None,
        },
{
    let ghost tv = tips_view(tips@);
    let mut i: usize = 0;
    assert(tv.skip(0) =~= tv);
    while i < tips.len()
        invariant
            i <= tips@.len(),
            tv == tips_view(tips@),
            tip_of(tv, name@) == tip_of(tv.skip(i as int), name@),
        decreases tips.len() - i,
    {
        assert(tv.skip(i as int)[0] == tip_view(tips@[i as int]));
        if crate::text::str_eq(tips[i].0.as_str(), name) {
            return Some(tips[i].1);
        }
        assert(tv.skip(i as int).drop_first() =~= tv.skip(i + 1));
        i += 1;
    }
    assert(tv.skip(i as int) =~= Seq::<(Seq<char>, Seq<u8>, i64)>::empty());
    None
}

fn contains_oid(v: &Vec<Oid>, x: &Oid) -> (r: bool)
    ensures
        r == oids(v@).contains(x@),
{
    let mut i: usize = 0;
    while i < v.len()
        invariant
            i <= v@.len(),
            forall|k: int| 0 <= k < i ==> v@[k]@ != x@,
        decreases v.len() - i,
    {
        if v[i].same(x) {
            assert(oids(v@)[i as int] == x@);
            return true;
        }
        i += 1;
    }
    proof {
        if oids(v@).contains(x@) {
            let k = choose|k: int| 0 <= k < oids(v@).len() && oids(v@)[k] == x@;
            assert(v@[k]@ == x@);
        }
    }
    false
}

/// The walk's sources: the picked names' tips in order, each commit once,
/// and a detached HEAD's commit after them when it is not one already, so
/// the `@` row has a node to sit on.
pub fn map_sources(tips: &Vec<Tip>, picked: &Vec<String>, detached: Option<Oid>) -> (r: Vec<Oid>)
    ensures
        ({
            let base = sources_of(tips_view(tips@), string_views(picked@));
            oids(r@) == match detached {
                Some(d) => if base.contains(d@) { base } else { base.push(d@) },
                None => base,
            }
        }),
{
    let ghost pv = string_views(picked@);
    let ghost tv = tips_view(tips@);
    let mut out: Vec<Oid> = Vec::new();
    let mut i: usize = 0;
    while i < picked.len()
        invariant
            i <= picked@.len(),
            pv == string_views(picked@),
            tv == tips_view(tips@),
            oids(out@) == sources_of(tv, pv.take(i as int)),
        decreases picked.len() - i,
    {
        proof {
            assert(pv.take(i + 1).drop_last() =~= pv.take(i as int));
            assert(pv.take(i + 1).last() == picked@[i as int]@);
        }
        let ghost before = oids(out@);
        match tip_lookup(tips, picked[i].as_str()) {
            Some(id) => {
                if !contains_oid(&out, &id) {
                    out.push(id);
                    assert(oids(out@) =~= before.push(id@));
                }
            },
            None => {},
        }
        i += 1;
    }
    assert(pv.take(pv.len() as int) =~= pv);
    match detached {
        Some(d) => {
            let ghost before = oids(out@);
            if !contains_oid(&out, &d) {
                out.push(d);
                assert(oids(out@) =~= before.push(d@));
            }
        },
        None => {},
    }
    out
}

/// One commit the walk read: its committer time and its parents in
/// recorded order.
#[derive(Debug, Clone)]
pub struct Walked {
    pub id: Oid,
    pub time: i64,
    pub parents: Vec<Oid>,
}

/// What the walk needs next.
#[derive(Debug)]
pub enum WalkStep {
    /// Read this commit and hand its time and parents to `Walk::read`.
    Read(Oid),
    /// Read this commit's committer time and hand it to `Walk::timed`.
    Time(Oid),
    /// The walk is over.
    Done,
}

/// The walk, newest first, following parents until the frontier converges
/// on one commit known to every source, or the depth cap runs out. Each
/// source holds one bit of a reachability mask, and a commit's mask is
/// every source that reaches it.
#[derive(Debug)]
pub struct Walk {
    /// Queued commits not read yet, with their committer times.
    pub frontier: Vec<(i64, Oid)>,
    /// Every commit ever queued.
    pub queued: Vec<Oid>,
    /// Each commit's reachability mask so far.
    pub reach: Vec<(Oid, u64)>,
    /// The commits read, in read order.
    pub walked: Vec<Walked>,
    /// Parents of the last commit read, still waiting for their times.
    pub waiting: Vec<Oid>,
    /// The commit handed out to be read, and whether it is the last.
    pub reading: Option<(Oid, bool)>,
    pub full: u64,
    pub cap: usize,
    pub finished: bool,
    /// The walk stopped on the cap rather than converging.
    pub truncated: bool,
}

/// The ids of the commits read.
pub open spec fn walked_ids(w: Seq<Walked>) -> Seq<Seq<u8>> {
    w.map_values(|x: Walked| x.id@)
}

/// The ids on the frontier.
pub open spec fn frontier_ids(f: Seq<(i64, Oid)>) -> Seq<Seq<u8>> {
    f.map_values(|x: (i64, Oid)| x.1@)
}

/// Whether frontier entry `a` comes out no later than `b`: the newer first,
/// equal times by the larger id, as a max-heap of `(time, hex)` pops them.
pub open spec fn pops_before(a: (i64, Seq<u8>), b: (i64, Seq<u8>)) -> bool {
    a.0 > b.0 || (a.0 == b.0 && (crate::bytes::bytes_lt(b.1, a.1) || a.1 == b.1))
}

/// Where the first entry for `id` stands in `reach` at or after `i`; -1
/// when none does.
pub open spec fn mask_pos(reach: Seq<(Oid, u64)>, id: Seq<u8>, i: int) -> int
    decreases reach.len() - i,
{
    if i < 0 || i >= reach.len() {
        -1
    } else if reach[i].0@ == id {
        i
    } else {
        mask_pos(reach, id, i + 1)
    }
}

/// The mask `reach` holds for `id`: its first entry's, or no bits.
pub open spec fn mask_in(reach: Seq<(Oid, u64)>, id: Seq<u8>) -> u64 {
    let p = mask_pos(reach, id, 0);
    if p >= 0 { reach[p].1 } else { 0 }
}

/// `reach` once `id` takes on `mask`: its first entry gains the bits, or a
/// new entry holds them.
pub open spec fn with_mask(reach: Seq<(Oid, u64)>, id: Oid, mask: u64) -> Seq<(Oid, u64)> {
    let p = mask_pos(reach, id@, 0);
    if p >= 0 {
        reach.update(p, (id, reach[p].1 | mask))
    } else {
        reach.push((id, mask))
    }
}

/// `reach` once every commit of `ids`, in order, takes on `mask`.
pub open spec fn spread(reach: Seq<(Oid, u64)>, ids: Seq<Oid>, mask: u64) -> Seq<(Oid, u64)>
    decreases ids.len(),
{
    if ids.len() == 0 {
        reach
    } else {
        with_mask(spread(reach, ids.drop_last(), mask), ids.last(), mask)
    }
}

/// The queue and the waiting list once `parents` are taken in order: each
/// one neither read (`walked`) nor queued yet joins both.
pub open spec fn enqueued(queued: Seq<Oid>, waiting: Seq<Oid>, walked: Seq<Seq<u8>>, parents: Seq<Oid>) -> (Seq<Oid>, Seq<Oid>)
    decreases parents.len(),
{
    if parents.len() == 0 {
        (queued, waiting)
    } else {
        let qw = enqueued(queued, waiting, walked, parents.drop_last());
        let p = parents.last();
        if walked.contains(p@) || oids(qw.0).contains(p@) {
            qw
        } else {
            (qw.0.push(p), qw.1.push(p))
        }
    }
}

impl Walk {
    /// What every step keeps: the commits read are distinct and no more
    /// than the cap; what is queued to be read is distinct and not read
    /// yet; and a commit handed out to be read is not read yet either.
    pub open spec fn wf(&self) -> bool {
        &&& walked_ids(self.walked@).no_duplicates()
        &&& self.walked@.len() <= self.cap
        &&& frontier_ids(self.frontier@).no_duplicates()
        &&& oids(self.waiting@).no_duplicates()
        &&& forall|i: int| 0 <= i < self.frontier@.len() ==> !walked_ids(self.walked@).contains(#[trigger] self.frontier@[i].1@)
        &&& forall|i: int| 0 <= i < self.waiting@.len() ==> !walked_ids(self.walked@).contains(#[trigger] self.waiting@[i]@)
        &&& forall|i: int| 0 <= i < self.waiting@.len() ==> !frontier_ids(self.frontier@).contains(#[trigger] self.waiting@[i]@)
        &&& forall|i: int| 0 <= i < self.frontier@.len() ==> oids(self.queued@).contains(#[trigger] self.frontier@[i].1@)
        &&& forall|i: int| 0 <= i < self.waiting@.len() ==> oids(self.queued@).contains(#[trigger] self.waiting@[i]@)
        &&& self.reading matches Some((id, last)) ==> {
            &&& !walked_ids(self.walked@).contains(id@)
            &&& self.waiting@.len() == 0
            &&& self.walked@.len() < self.cap
            &&& !frontier_ids(self.frontier@).contains(id@)
        }
        &&& self.finished ==> self.reading is None && self.waiting@.len() == 0
        &&& self.truncated ==> self.finished && self.walked@.len() >= self.cap
    }

    /// A walk from `sources` and their committer times, reading at most
    /// `cap` commits. Each source holds one bit of the mask, so there are no
    /// more than 64, each once.
    pub fn new(sources: &Vec<(Oid, i64)>, cap: usize) -> (r: Walk)
        requires
            sources@.len() <= 64,
            oids(sources@.map_values(|s: (Oid, i64)| s.0)).no_duplicates(),
        ensures
            r.wf(),
            r.walked@.len() == 0,
            !r.finished,
            !r.truncated,
            r.waiting@.len() == 0,
            r.reading is None,
            r.cap == cap,
            r.full == if sources@.len() == 64 { u64::MAX as int } else { (1u64 << (sources@.len() as u64)) - 1 },
            r.frontier@ == Seq::new(sources@.len(), |k: int| (sources@[k].1, sources@[k].0)),
            r.queued@ == Seq::new(sources@.len(), |k: int| sources@[k].0),
            r.reach@ == Seq::new(sources@.len(), |k: int| (sources@[k].0, 1u64 << (k as u64))),
    {
        let n = sources.len();
        let full: u64 = if n == 64 {
            u64::MAX
        } else {
            let b: u64 = 1u64 << (n as u64);
            assert(b >= 1) by (bit_vector)
                requires
                    n < 64,
                    b == 1u64 << (n as u64),
            ;
            b - 1
        };
        let mut frontier: Vec<(i64, Oid)> = Vec::new();
        let mut queued: Vec<Oid> = Vec::new();
        let mut reach: Vec<(Oid, u64)> = Vec::new();
        let ghost ids = oids(sources@.map_values(|s: (Oid, i64)| s.0));
        let mut i: usize = 0;
        while i < n
            invariant
                n == sources@.len(),
                n <= 64,
                i <= n,
                ids == oids(sources@.map_values(|s: (Oid, i64)| s.0)),
                ids.no_duplicates(),
                frontier_ids(frontier@) == ids.take(i as int),
                oids(queued@) == ids.take(i as int),
                frontier@ == Seq::new(i as nat, |k: int| (sources@[k].1, sources@[k].0)),
                queued@ == Seq::new(i as nat, |k: int| sources@[k].0),
                reach@ == Seq::new(i as nat, |k: int| (sources@[k].0, 1u64 << (k as u64))),
            decreases n - i,
        {
            let (id, t) = sources[i];
            let ghost bf = frontier_ids(frontier@);
            let ghost bq = oids(queued@);
            frontier.push((t, id));
            queued.push(id);
            reach.push((id, 1u64 << (i as u64)));
            proof {
                assert(ids[i as int] == id@);
                assert(frontier_ids(frontier@) =~= bf.push(id@));
                assert(oids(queued@) =~= bq.push(id@));
                assert(ids.take(i + 1) =~= ids.take(i as int).push(ids[i as int]));
                assert(frontier@ =~= Seq::new((i + 1) as nat, |k: int| (sources@[k].1, sources@[k].0)));
                assert(queued@ =~= Seq::new((i + 1) as nat, |k: int| sources@[k].0));
                assert(reach@ =~= Seq::new((i + 1) as nat, |k: int| (sources@[k].0, 1u64 << (k as u64))));
            }
            i += 1;
        }
        proof {
            assert(ids.take(n as int) =~= ids);
            assert(walked_ids(Seq::<Walked>::empty()) =~= Seq::<Seq<u8>>::empty());
            assert forall|k: int| 0 <= k < frontier@.len() implies oids(queued@).contains(#[trigger] frontier@[k].1@) by {
                assert(frontier_ids(frontier@)[k] == frontier@[k].1@);
                assert(oids(queued@)[k] == frontier@[k].1@);
            }
        }
        Walk {
            frontier,
            queued,
            reach,
            walked: Vec::new(),
            waiting: Vec::new(),
            reading: None,
            full,
            cap,
            finished: false,
            truncated: false,
        }
    }

    /// A commit's reachability mask so far; none is no bits.
    fn mask_of(&self, id: &Oid) -> (r: u64)
        ensures
            r == mask_in(self.reach@, id@),
    {
        let mut i: usize = 0;
        while i < self.reach.len()
            invariant
                i <= self.reach@.len(),
                mask_pos(self.reach@, id@, 0) == mask_pos(self.reach@, id@, i as int),
            decreases self.reach.len() - i,
        {
            if self.reach[i].0.same(id) {
                return self.reach[i].1;
            }
            i += 1;
        }
        0
    }

    /// The frontier entry that pops next: the newest, equal times by the
    /// larger id.
    fn top(&self) -> (r: usize)
        requires
            self.frontier@.len() > 0,
        ensures
            r < self.frontier@.len(),
            forall|i: int| 0 <= i < self.frontier@.len() ==> pops_before(
                (self.frontier@[r as int].0, self.frontier@[r as int].1@),
                (#[trigger] self.frontier@[i].0, self.frontier@[i].1@),
            ),
    {
        let mut best: usize = 0;
        let mut i: usize = 1;
        while i < self.frontier.len()
            invariant
                1 <= i <= self.frontier@.len(),
                best < i,
                forall|k: int| 0 <= k < i ==> pops_before(
                    (self.frontier@[best as int].0, self.frontier@[best as int].1@),
                    (#[trigger] self.frontier@[k].0, self.frontier@[k].1@),
                ),
            decreases self.frontier.len() - i,
        {
            let (t, id) = self.frontier[i];
            let (bt, bid) = self.frontier[best];
            if t > bt || (t == bt && bid.lt(&id)) {
                proof {
                    assert forall|k: int| 0 <= k < i + 1 implies pops_before(
                        (self.frontier@[i as int].0, self.frontier@[i as int].1@),
                        (#[trigger] self.frontier@[k].0, self.frontier@[k].1@),
                    ) by {
                        if k < i {
                            assert(pops_before((bt, bid@), (self.frontier@[k].0, self.frontier@[k].1@)));
                            if t == bt && self.frontier@[k].0 == bt {
                                let kid = self.frontier@[k].1@;
                                if crate::bytes::bytes_lt(kid, bid@) {
                                    crate::bytes::lemma_lt_transitive(kid, bid@, id@);
                                }
                            }
                        }
                    }
                }
                best = i;
            } else {
                proof {
                    crate::bytes::lemma_lt_total(bid@, id@);
                }
            }
            i += 1;
        }
        best
    }

    /// What the walk needs next. A commit it hands out to read must come
    /// back through `read`, a time it asks for through `timed`.
    pub fn step(&mut self) -> (r: WalkStep)
        requires
            old(self).wf(),
        ensures
            final(self).wf(),
            final(self).walked == old(self).walked,
            r matches WalkStep::Read(id) ==> final(self).reading matches Some((rid, _)) && rid@ == id@,
            r matches WalkStep::Time(id) ==> final(self).waiting@.len() > 0 && final(self).waiting@[0]@ == id@,
            r is Done ==> final(self).finished,
            old(self).truncated ==> final(self).truncated,
            final(self).queued == old(self).queued,
            final(self).reach == old(self).reach,
            final(self).waiting == old(self).waiting,
            final(self).full == old(self).full,
            final(self).cap == old(self).cap,
            // Already finished, something waiting for its time, or a commit
            // handed out and not read: the same answer again, nothing changed.
            old(self).finished ==> r is Done && *final(self) == *old(self),
            !old(self).finished && old(self).waiting@.len() > 0 ==> r == WalkStep::Time(old(self).waiting@[0])
                && *final(self) == *old(self),
            !old(self).finished && old(self).waiting@.len() == 0 && old(self).reading is Some ==> (old(
                self,
            ).reading matches Some(x) && r == WalkStep::Read(x.0) && *final(self) == *old(self)),
            // Nothing left to queue: done, converged.
            !old(self).finished && old(self).waiting@.len() == 0 && old(self).reading is None
                && old(self).frontier@.len() == 0 ==> r is Done && final(self).finished && final(self).truncated
                == old(self).truncated && final(self).frontier == old(self).frontier,
            // The cap reached: done, truncated.
            !old(self).finished && old(self).waiting@.len() == 0 && old(self).reading is None
                && old(self).frontier@.len() > 0 && old(self).walked@.len() >= old(self).cap ==> r is Done
                && final(self).finished && final(self).truncated && final(self).frontier == old(self).frontier,
            // Otherwise the frontier's top entry is handed out to read and
            // leaves the frontier; it is the last when it is the only entry
            // and every source reaches it.
            !old(self).finished && old(self).waiting@.len() == 0 && old(self).reading is None
                && old(self).frontier@.len() > 0 && old(self).walked@.len() < old(self).cap ==> (exists|m: int|
                0 <= m < old(self).frontier@.len()
                && (forall|i: int| 0 <= i < old(self).frontier@.len() ==> pops_before(
                    (old(self).frontier@[m].0, old(self).frontier@[m].1@),
                    (#[trigger] old(self).frontier@[i].0, old(self).frontier@[i].1@),
                ))
                && r == WalkStep::Read(old(self).frontier@[m].1)
                && final(self).frontier@ == old(self).frontier@.remove(m)
                && final(self).reading == Some((old(self).frontier@[m].1,
                    old(self).frontier@.len() == 1 && mask_in(old(self).reach@, old(self).frontier@[m].1@) == old(self).full))
                && !final(self).finished && final(self).truncated == old(self).truncated),
    {
        if self.finished {
            return WalkStep::Done;
        }
        if self.waiting.len() > 0 {
            return WalkStep::Time(self.waiting[0]);
        }
        match self.reading {
            Some((id, _)) => return WalkStep::Read(id),
            None => {},
        }
        if self.frontier.len() == 0 {
            self.finished = true;
            return WalkStep::Done;
        }
        if self.walked.len() >= self.cap {
            self.truncated = true;
            self.finished = true;
            return WalkStep::Done;
        }
        let m = self.top();
        let (_, id) = self.frontier[m];
        // Convergence: one commit left in the frontier, known to every
        // source. It is the fork the whole map hangs from: read it and stop
        // before its parents.
        let last = self.frontier.len() == 1 && self.mask_of(&id) == self.full;
        let ghost before = self.frontier@;
        self.frontier.remove(m);
        proof {
            let bf = frontier_ids(before);
            assert(frontier_ids(self.frontier@) =~= bf.remove(m as int));
            assert(bf[m as int] == id@);
            assert forall|k: int| 0 <= k < self.frontier@.len() implies !walked_ids(self.walked@).contains(#[trigger] self.frontier@[k].1@) by {
                if k < m { assert(self.frontier@[k] == before[k]); } else { assert(self.frontier@[k] == before[k + 1]); }
            }
            assert forall|k: int| 0 <= k < self.frontier@.len() implies oids(self.queued@).contains(#[trigger] self.frontier@[k].1@) by {
                if k < m { assert(self.frontier@[k] == before[k]); } else { assert(self.frontier@[k] == before[k + 1]); }
            }
            if frontier_ids(self.frontier@).contains(id@) {
                let k = choose|k: int| 0 <= k < frontier_ids(self.frontier@).len() && frontier_ids(self.frontier@)[k] == id@;
                if k < m { assert(bf[k] == id@); } else { assert(bf[k + 1] == id@); }
            }
            assert(frontier_ids(self.frontier@).no_duplicates());
        }
        self.reading = Some((id, last));
        WalkStep::Read(id)
    }

    /// The commit handed out to read: its committer time and its parents in
    /// recorded order. Its mask goes to each parent, and each parent neither
    /// read nor queued yet waits for its time.
    pub fn read(&mut self, id: Oid, time: i64, parents: Vec<Oid>)
        requires
            old(self).wf(),
            old(self).reading matches Some((rid, _)) && rid@ == id@,
        ensures
            final(self).wf(),
            walked_ids(final(self).walked@) == walked_ids(old(self).walked@).push(id@),
            final(self).walked@.last().time == time,
            final(self).walked@.last().parents@ == parents@,
            final(self).truncated == old(self).truncated,
            final(self).reading is None,
            final(self).frontier == old(self).frontier,
            final(self).full == old(self).full,
            final(self).cap == old(self).cap,
            // The last commit of a converged walk ends it, its parents unread.
            old(self).reading matches Some((_, last)) && last ==> final(self).finished
                && final(self).queued == old(self).queued && final(self).waiting == old(self).waiting
                && final(self).reach == old(self).reach,
            // Otherwise each parent takes on the read commit's mask, and each
            // one neither read nor queued yet is queued and waits for its
            // time, in the order recorded.
            old(self).reading matches Some((_, last)) && !last ==> !final(self).finished
                && final(self).reach@ == spread(old(self).reach@, parents@, mask_in(old(self).reach@, id@))
                && (final(self).queued@, final(self).waiting@) == enqueued(
                    old(self).queued@,
                    old(self).waiting@,
                    walked_ids(old(self).walked@).push(id@),
                    parents@,
                ),
    {
        let ghost r0 = self.reach@;
        let ghost q0 = self.queued@;
        let ghost w0 = self.waiting@;
        let ghost f0 = self.frontier;
        let last = match self.reading {
            Some((_, l)) => l,
            None => false,
        };
        let ghost before = self.walked@;
        self.walked.push(Walked { id, time, parents: clone_oids(&parents) });
        self.reading = None;
        proof {
            assert(walked_ids(self.walked@) =~= walked_ids(before).push(id@));
            assert forall|k: int| 0 <= k < self.frontier@.len() implies !walked_ids(self.walked@).contains(#[trigger] self.frontier@[k].1@) by {
                if walked_ids(self.walked@).contains(self.frontier@[k].1@) {
                    let j = choose|j: int| 0 <= j < walked_ids(self.walked@).len() && walked_ids(self.walked@)[j] == self.frontier@[k].1@;
                    if j < before.len() {
                        assert(walked_ids(before)[j] == self.frontier@[k].1@);
                    } else {
                        assert(frontier_ids(self.frontier@)[k] == id@);
                    }
                }
            }
        }
        if last {
            self.finished = true;
            return;
        }
        let mask = self.mask_of(&id);
        let mut i: usize = 0;
        proof {
            assert(parents@.take(0) =~= Seq::<Oid>::empty());
        }
        while i < parents.len()
            invariant
                self.reach@ == spread(r0, parents@.take(i as int), mask),
                (self.queued@, self.waiting@) == enqueued(q0, w0, walked_ids(self.walked@), parents@.take(i as int)),
                self.frontier == f0,
                self.full == old(self).full,
                self.cap == old(self).cap,
                mask == mask_in(r0, id@),
                self.wf(),
                self.reading is None,
                !self.finished,
                walked_ids(self.walked@) == walked_ids(before).push(id@),
                self.walked@.len() == before.len() + 1,
                self.walked@.last().time == time,
                self.walked@.last().parents@ == parents@,
                !self.truncated,
                i <= parents@.len(),
            decreases parents.len() - i,
        {
            let p = parents[i];
            proof {
                assert(parents@.take(i + 1).drop_last() =~= parents@.take(i as int));
                assert(parents@.take(i + 1).last() == p);
            }
            add_mask(&mut self.reach, &p, mask);
            let read_already = self.is_walked(&p);
            let queued_already = contains_oid(&self.queued, &p);
            if !read_already && !queued_already {
                let ghost bq = oids(self.queued@);
                let ghost bw = oids(self.waiting@);
                self.queued.push(p);
                self.waiting.push(p);
                proof {
                    assert(oids(self.queued@) =~= bq.push(p@));
                    assert(oids(self.waiting@) =~= bw.push(p@));
                    assert forall|k: int| 0 <= k < self.waiting@.len() implies !frontier_ids(self.frontier@).contains(#[trigger] self.waiting@[k]@) by {
                        if k == bw.len() {
                            if frontier_ids(self.frontier@).contains(p@) {
                                let j = choose|j: int| 0 <= j < frontier_ids(self.frontier@).len() && frontier_ids(self.frontier@)[j] == p@;
                                assert(oids(self.queued@).contains(self.frontier@[j].1@));
                                assert(bq.contains(self.frontier@[j].1@));
                            }
                        }
                    }
                    assert forall|k: int| 0 <= k < self.waiting@.len() implies oids(self.queued@).contains(#[trigger] self.waiting@[k]@) by {
                        if k < bw.len() {
                            assert(bq.contains(self.waiting@[k]@));
                            let j = choose|j: int| 0 <= j < bq.len() && bq[j] == self.waiting@[k]@;
                            assert(oids(self.queued@)[j] == bq[j]);
                        } else {
                            assert(oids(self.queued@)[bq.len() as int] == p@);
                        }
                    }
                    assert forall|k: int| 0 <= k < self.frontier@.len() implies oids(self.queued@).contains(#[trigger] self.frontier@[k].1@) by {
                        assert(bq.contains(self.frontier@[k].1@));
                        let j = choose|j: int| 0 <= j < bq.len() && bq[j] == self.frontier@[k].1@;
                        assert(oids(self.queued@)[j] == bq[j]);
                    }
                    assert forall|a: int, b: int| 0 <= a < b < self.waiting@.len() implies oids(self.waiting@)[a] != oids(self.waiting@)[b] by {
                        if b == bw.len() {
                            assert(oids(self.waiting@)[a] == bw[a]);
                            assert(bq.contains(bw[a]));
                        }
                    }
                }
            }
            i += 1;
        }
        proof {
            assert(parents@.take(parents@.len() as int) =~= parents@);
        }
    }

    /// Whether a commit has been read.
    fn is_walked(&self, id: &Oid) -> (r: bool)
        ensures
            r == walked_ids(self.walked@).contains(id@),
    {
        let mut i: usize = 0;
        while i < self.walked.len()
            invariant
                i <= self.walked@.len(),
                forall|k: int| 0 <= k < i ==> self.walked@[k].id@ != id@,
            decreases self.walked.len() - i,
        {
            if self.walked[i].id.same(id) {
                assert(walked_ids(self.walked@)[i as int] == id@);
                return true;
            }
            i += 1;
        }
        proof {
            if walked_ids(self.walked@).contains(id@) {
                let k = choose|k: int| 0 <= k < walked_ids(self.walked@).len() && walked_ids(self.walked@)[k] == id@;
                assert(self.walked@[k].id@ == id@);
            }
        }
        false
    }

    /// The time a waiting parent was asked for: it joins the frontier.
    pub fn timed(&mut self, id: Oid, time: i64)
        requires
            old(self).wf(),
            old(self).waiting@.len() > 0,
            old(self).waiting@[0]@ == id@,
        ensures
            final(self).wf(),
            final(self).walked == old(self).walked,
            final(self).truncated == old(self).truncated,
            final(self).frontier@ == old(self).frontier@.push((time, old(self).waiting@[0])),
            final(self).waiting@ == old(self).waiting@.drop_first(),
            final(self).queued == old(self).queued,
            final(self).reach == old(self).reach,
            final(self).reading == old(self).reading,
            final(self).finished == old(self).finished,
            final(self).full == old(self).full,
            final(self).cap == old(self).cap,
    {
        let ghost bf = self.frontier@;
        let ghost bw = self.waiting@;
        self.frontier.push((time, self.waiting[0]));
        self.waiting.remove(0);
        proof {
            assert(self.waiting@ =~= bw.drop_first());
            assert(frontier_ids(self.frontier@) =~= frontier_ids(bf).push(bw[0]@));
            assert(oids(self.waiting@) =~= oids(bw).remove(0));
            assert forall|k: int| 0 <= k < self.frontier@.len() implies !walked_ids(self.walked@).contains(#[trigger] self.frontier@[k].1@) by {
                if k < bf.len() { assert(self.frontier@[k] == bf[k]); }
            }
            assert forall|k: int| 0 <= k < self.frontier@.len() implies oids(self.queued@).contains(#[trigger] self.frontier@[k].1@) by {
                if k < bf.len() { assert(self.frontier@[k] == bf[k]); }
            }
            assert forall|k: int| 0 <= k < self.waiting@.len() implies !frontier_ids(self.frontier@).contains(#[trigger] self.waiting@[k]@) by {
                assert(self.waiting@[k] == bw[k + 1]);
                if frontier_ids(self.frontier@).contains(bw[k + 1]@) {
                    let j = choose|j: int| 0 <= j < frontier_ids(self.frontier@).len() && frontier_ids(self.frontier@)[j] == bw[k + 1]@;
                    if j < bf.len() {
                        assert(frontier_ids(bf)[j] == bw[k + 1]@);
                    } else {
                        assert(oids(bw)[0] == oids(bw)[k + 1]);
                    }
                }
            }
            assert forall|k: int| 0 <= k < self.waiting@.len() implies !walked_ids(self.walked@).contains(#[trigger] self.waiting@[k]@) by {
                assert(self.waiting@[k] == bw[k + 1]);
            }
            assert forall|k: int| 0 <= k < self.waiting@.len() implies oids(self.queued@).contains(#[trigger] self.waiting@[k]@) by {
                assert(self.waiting@[k] == bw[k + 1]);
            }
            if frontier_ids(bf).contains(bw[0]@) {
                assert(!frontier_ids(bf).contains(bw[0]@));
            }
        }
    }
}

/// Add `mask` to `id`'s bits: its first entry gains them, or a new entry
/// holds them when it has none.
fn add_mask(reach: &mut Vec<(Oid, u64)>, id: &Oid, mask: u64)
    ensures
        ({
            let p = mask_pos(old(reach)@, id@, 0);
            if p >= 0 {
                final(reach)@ == old(reach)@.update(p, (*id, old(reach)@[p].1 | mask))
            } else {
                final(reach)@ == old(reach)@.push((*id, mask))
            }
        }),
{
    let ghost r0 = reach@;
    let mut i: usize = 0;
    while i < reach.len()
        invariant
            reach@ == r0,
            r0 == old(reach)@,
            i <= reach@.len(),
            mask_pos(r0, id@, 0) == mask_pos(r0, id@, i as int),
        decreases reach.len() - i,
    {
        if reach[i].0.same(id) {
            assert(mask_pos(r0, id@, i as int) == i);
            let m = reach[i].1 | mask;
            reach.set(i, (*id, m));
            return;
        }
        i += 1;
    }
    reach.push((*id, mask));
}

fn clone_oids(v: &Vec<Oid>) -> (r: Vec<Oid>)
    ensures
        r@ == v@,
{
    let mut out: Vec<Oid> = Vec::new();
    let mut i: usize = 0;
    while i < v.len()
        invariant
            i <= v@.len(),
            out@ == v@.take(i as int),
        decreases v.len() - i,
    {
        out.push(v[i]);
        i += 1;
        assert(out@ =~= v@.take(i as int));
    }
    assert(v@.take(v@.len() as int) =~= v@);
    out
}

/// How many times `id` stands among `parents`.
pub open spec fn count_in(parents: Seq<Seq<u8>>, id: Seq<u8>) -> nat
    decreases parents.len(),
{
    if parents.len() == 0 {
        0
    } else {
        count_in(parents.drop_last(), id) + if parents.last() == id { 1nat } else { 0nat }
    }
}

/// A walked commit's parents, as ids.
pub open spec fn parent_ids(w: Walked) -> Seq<Seq<u8>> {
    oids(w.parents@)
}

/// How many walked commits name `id` as a parent, counting each naming.
pub open spec fn children_of(w: Seq<Walked>, id: Seq<u8>) -> nat
    decreases w.len(),
{
    if w.len() == 0 {
        0
    } else {
        children_of(w.drop_last(), id) + count_in(parent_ids(w.last()), id)
    }
}

/// Structure on its own account: a source, a merge, a fork (two walked
/// children), or a root.
pub open spec fn structural(w: Seq<Walked>, sources: Seq<Seq<u8>>, i: int) -> bool {
    ||| sources.contains(w[i].id@)
    ||| w[i].parents@.len() >= 2
    ||| children_of(w, w[i].id@) >= 2
    ||| w[i].parents@.len() == 0
}

/// Whether a walked commit is structure; `None` when `id` was not walked.
pub open spec fn structural_id(w: Seq<Walked>, sources: Seq<Seq<u8>>, id: Seq<u8>) -> bool {
    exists|j: int| 0 <= j < w.len() && w[j].id@ == id && structural(w, sources, j)
}

/// A run of exactly one commit is shown, not elided: an elision that saves
/// no line and tells less is a bad trade. Commit `i` is such a run when it
/// is not structure, a structural commit names it as a parent, and its own
/// parent was not walked or is structure.
pub open spec fn lone_run(w: Seq<Walked>, sources: Seq<Seq<u8>>, i: int) -> bool {
    &&& !structural(w, sources, i)
    &&& exists|j: int| 0 <= j < w.len() && structural(w, sources, j) && #[trigger] parent_ids(w[j]).contains(w[i].id@)
    &&& w[i].parents@.len() > 0 ==> (
        !walked_ids(w).contains(w[i].parents@[0]@) || structural_id(w, sources, w[i].parents@[0]@)
    )
}

/// Which walked commits the map shows: structure, and the lone commits
/// between structure.
pub open spec fn shown(w: Seq<Walked>, sources: Seq<Seq<u8>>, i: int) -> bool {
    structural(w, sources, i) || lone_run(w, sources, i)
}

fn count_of(parents: &Vec<Oid>, id: &Oid) -> (r: u64)
    requires
        parents@.len() < u64::MAX,
    ensures
        r == count_in(oids(parents@), id@),
{
    let mut n: u64 = 0;
    let mut i: usize = 0;
    while i < parents.len()
        invariant
            i <= parents@.len(),
            parents@.len() < u64::MAX,
            n == count_in(oids(parents@).take(i as int), id@),
            n <= i,
        decreases parents.len() - i,
    {
        proof {
            assert(oids(parents@).take(i + 1).drop_last() =~= oids(parents@).take(i as int));
            assert(oids(parents@).take(i + 1).last() == parents@[i as int]@);
        }
        if parents[i].same(id) {
            n += 1;
        }
        i += 1;
    }
    assert(oids(parents@).take(parents@.len() as int) =~= oids(parents@));
    n
}

/// The walked commits' children counts, each capped at two: all the rule
/// asks is whether a commit is a fork.
fn forks(walked: &Vec<Walked>) -> (r: Vec<bool>)
    requires
        forall|j: int| 0 <= j < walked@.len() ==> (#[trigger] walked@[j]).parents@.len() < u64::MAX,
    ensures
        r@.len() == walked@.len(),
        forall|i: int| 0 <= i < walked@.len() ==> r@[i] == (children_of(walked@, walked@[i].id@) >= 2),
{
    let mut out: Vec<bool> = Vec::new();
    let mut i: usize = 0;
    while i < walked.len()
        invariant
            i <= walked@.len(),
            out@.len() == i,
            forall|j: int| 0 <= j < walked@.len() ==> (#[trigger] walked@[j]).parents@.len() < u64::MAX,
            forall|k: int| 0 <= k < i ==> out@[k] == (children_of(walked@, walked@[k].id@) >= 2),
        decreases walked.len() - i,
    {
        let id = walked[i].id;
        let mut total: u64 = 0;
        let mut j: usize = 0;
        while j < walked.len() && total < 2
            invariant
                j <= walked@.len(),
                forall|x: int| 0 <= x < walked@.len() ==> (#[trigger] walked@[x]).parents@.len() < u64::MAX,
                total < 2 ==> total == children_of(walked@.take(j as int), id@),
                total >= 2 ==> children_of(walked@.take(j as int), id@) >= 2,
                total <= 2 + u64::MAX,
            decreases walked.len() - j,
        {
            proof {
                assert(walked@.take(j + 1).drop_last() =~= walked@.take(j as int));
                assert(walked@.take(j + 1).last() == walked@[j as int]);
            }
            let c = count_of(&walked[j].parents, &id);
            total = if c >= 2 { 2 } else { total + c };
            j += 1;
        }
        proof {
            if total < 2 {
                assert(walked@.take(walked@.len() as int) =~= walked@);
            } else {
                lemma_children_monotone(walked@, j as int, id@);
            }
        }
        out.push(total >= 2);
        i += 1;
    }
    out
}

/// Counting children over a longer prefix never counts fewer.
proof fn lemma_children_monotone(w: Seq<Walked>, j: int, id: Seq<u8>)
    requires
        0 <= j <= w.len(),
    ensures
        children_of(w.take(j), id) <= children_of(w, id),
    decreases w.len() - j,
{
    if j < w.len() {
        lemma_children_monotone(w, j + 1, id);
        assert(w.take(j + 1).drop_last() =~= w.take(j));
    } else {
        assert(w.take(j) =~= w);
    }
}

/// Which walked commits the map shows, by walk position: structure (a
/// source, a merge, a fork, a root) and each lone commit between structure.
pub fn visibility(walked: &Vec<Walked>, sources: &Vec<Oid>) -> (r: Vec<bool>)
    requires
        walked_ids(walked@).no_duplicates(),
        forall|j: int| 0 <= j < walked@.len() ==> (#[trigger] walked@[j]).parents@.len() < u64::MAX,
    ensures
        r@.len() == walked@.len(),
        forall|i: int| 0 <= i < walked@.len() ==> r@[i] == shown(walked@, oids(sources@), i),
{
    let ghost w = walked@;
    let ghost sv = oids(sources@);
    let fk = forks(walked);
    let mut base: Vec<bool> = Vec::new();
    let mut i: usize = 0;
    while i < walked.len()
        invariant
            w == walked@,
            sv == oids(sources@),
            fk@.len() == walked@.len(),
            forall|k: int| 0 <= k < walked@.len() ==> fk@[k] == (children_of(walked@, walked@[k].id@) >= 2),
            i <= walked@.len(),
            base@.len() == i,
            forall|k: int| 0 <= k < i ==> base@[k] == structural(w, sv, k),
        decreases walked.len() - i,
    {
        let np = walked[i].parents.len();
        let st = contains_oid(sources, &walked[i].id) || np >= 2 || fk[i] || np == 0;
        base.push(st);
        i += 1;
    }
    let mut out: Vec<bool> = Vec::new();
    let mut i: usize = 0;
    while i < walked.len()
        invariant
            w == walked@,
            sv == oids(sources@),
            walked_ids(w).no_duplicates(),
            base@.len() == walked@.len(),
            forall|k: int| 0 <= k < walked@.len() ==> base@[k] == structural(w, sv, k),
            i <= walked@.len(),
            out@.len() == i,
            forall|k: int| 0 <= k < i ==> out@[k] == shown(w, sv, k),
        decreases walked.len() - i,
    {
        if base[i] {
            out.push(true);
        } else {
            let id = walked[i].id;
            // Named as a parent by some structural commit.
            let mut named = false;
            let mut j: usize = 0;
            while j < walked.len() && !named
                invariant
                    w == walked@,
                    base@.len() == walked@.len(),
                    forall|k: int| 0 <= k < walked@.len() ==> base@[k] == structural(w, sv, k),
                    j <= walked@.len(),
                    i < walked@.len(),
                    id == walked@[i as int].id,
                    named == exists|x: int| 0 <= x < j && structural(w, sv, x) && #[trigger] parent_ids(w[x]).contains(id@),
                decreases walked.len() - j,
            {
                let b = base[j];
                let c = contains_oid(&walked[j].parents, &id);
                if b && c {
                    named = true;
                }
                proof {
                    assert(parent_ids(w[j as int]) == oids(walked@[j as int].parents@));
                    if named {
                        if b && c {
                            assert(structural(w, sv, j as int) && parent_ids(w[j as int]).contains(id@));
                        }
                    } else {
                        assert forall|x: int| 0 <= x < j + 1 implies !(structural(w, sv, x) && #[trigger] parent_ids(w[x]).contains(id@)) by {
                            if x == j {
                                assert(!(b && c));
                            }
                        }
                    }
                }
                j += 1;
            }
            // Its own parent, when it has one, is not walked or is structure.
            let ends = if walked[i].parents.len() > 0 {
                parent_ends_run(walked, &base, &walked[i].parents[0], Ghost(sv))
            } else {
                true
            };
            proof {
                assert(!structural(w, sv, i as int));
                assert(w[i as int].parents@.len() > 0);
                if named {
                    assert(exists|x: int| 0 <= x < w.len() && structural(w, sv, x) && #[trigger] parent_ids(w[x]).contains(w[i as int].id@));
                } else {
                    assert(j == w.len());
                }
                assert(lone_run(w, sv, i as int) == (named && ends));
            }
            out.push(named && ends);
        }
        i += 1;
    }
    out
}

/// Whether a run stops at `p`: it was not walked, or it is structure.
fn parent_ends_run(walked: &Vec<Walked>, base: &Vec<bool>, p: &Oid, Ghost(sv): Ghost<Seq<Seq<u8>>>) -> (r: bool)
    requires
        walked_ids(walked@).no_duplicates(),
        base@.len() == walked@.len(),
        forall|x: int| 0 <= x < walked@.len() ==> base@[x] == structural(walked@, sv, x),
    ensures
        r == (!walked_ids(walked@).contains(p@) || structural_id(walked@, sv, p@)),
{
    let ghost w = walked@;
    let mut k: usize = 0;
    while k < walked.len()
        invariant
            w == walked@,
            walked_ids(w).no_duplicates(),
            base@.len() == walked@.len(),
            forall|x: int| 0 <= x < walked@.len() ==> base@[x] == structural(walked@, sv, x),
            k <= walked@.len(),
            forall|x: int| 0 <= x < k ==> w[x].id@ != p@,
        decreases walked.len() - k,
    {
        if walked[k].id.same(p) {
            let r = base[k];
            proof {
                assert(walked_ids(w)[k as int] == p@);
                assert(walked_ids(w).contains(p@));
                if structural_id(w, sv, p@) {
                    let x = choose|x: int| 0 <= x < w.len() && w[x].id@ == p@ && structural(w, sv, x);
                    assert(walked_ids(w)[x] == walked_ids(w)[k as int]);
                }
                if r {
                    assert(w[k as int].id@ == p@ && structural(w, sv, k as int));
                }
            }
            return r;
        }
        k += 1;
    }
    proof {
        if walked_ids(w).contains(p@) {
            let x = choose|x: int| 0 <= x < walked_ids(w).len() && walked_ids(w)[x] == p@;
            assert(w[x].id@ == p@);
        }
    }
    true
}

/// A node of the contracted graph, before its parent list becomes row
/// indices.
#[derive(Debug, Clone)]
pub struct Built {
    pub node: MapNode,
    pub parents: Vec<usize>,
    /// The newest commit this node stands for; the ordering step sorts on
    /// it.
    pub sort_time: i64,
}

/// What a shown commit's row carries beyond its id and time, read by the
/// caller for each shown commit in walk order.
#[derive(Debug, Clone)]
pub struct CommitFace {
    pub short_id: String,
    pub subject: String,
    pub refs: Vec<MapRef>,
}

/// How many of the first `i` flags are set: a shown commit's node index.
pub open spec fn rank(v: Seq<bool>, i: int) -> nat
    decreases i,
{
    if i <= 0 {
        0
    } else {
        rank(v, i - 1) + if v[i - 1] { 1nat } else { 0nat }
    }
}

proof fn lemma_rank_mono(v: Seq<bool>, i: int, j: int)
    requires
        0 <= i <= j,
    ensures
        rank(v, i) <= rank(v, j),
        i < j && v[i] ==> rank(v, i) < rank(v, j),
    decreases j - i,
{
    if i < j {
        lemma_rank_mono(v, i, j - 1);
        if v[i] && i < j - 1 {
            lemma_rank_mono(v, i + 1, j - 1);
        }
    }
}

/// The refs on a node, in name order.
pub open spec fn refs_sorted(refs: Seq<MapRef>) -> bool {
    forall|i: int, j: int| 0 <= i < j < refs.len() ==> seq_le(refs[i].name@, refs[j].name@)
}

/// A node's refs in name order, each kept.
pub fn sort_refs(refs: Vec<MapRef>) -> (r: Vec<MapRef>)
    ensures
        refs_sorted(r@),
        r@.len() == refs@.len(),
        r@.to_multiset() == refs@.to_multiset(),
{
    let mut out: Vec<MapRef> = Vec::new();
    let mut rest = refs;
    let ghost all = rest@;
    let n0 = rest.len();
    let mut taken: usize = 0;
    proof {
        assert(all.take(0) =~= Seq::<MapRef>::empty());
    }
    while rest.len() > 0
        invariant
            refs_sorted(out@),
            all.len() == n0,
            out@.len() + rest@.len() == all.len(),
            taken == out@.len(),
            all.take(taken as int) + rest@ == all,
            out@.to_multiset() == all.take(taken as int).to_multiset(),
        decreases rest.len(),
    {
        let x = rest.remove(0);
        let ghost xv = x;
        proof {
            assert(all[taken as int] == x);
        }
        let xn = crate::text::chars_of(x.name.as_str());
        let mut p: usize = 0;
        while p < out.len() && !crate::text::chars_lt(&xn, &crate::text::chars_of(out[p].name.as_str()))
            invariant
                p <= out@.len(),
                xn@ == x.name@,
                forall|k: int| 0 <= k < p ==> seq_le(#[trigger] out@[k].name@, x.name@),
            decreases out.len() - p,
        {
            proof {
                crate::text::lemma_seq_lt_total(xn@, out@[p as int].name@);
            }
            p += 1;
        }
        let ghost before = out@;
        out.insert(p, x);
        proof {
            vstd::seq_lib::to_multiset_insert(before, p as int, xv);
            assert(all.take(taken + 1) =~= all.take(taken as int).push(xv));
            vstd::seq_lib::to_multiset_build(all.take(taken as int), xv);
            assert(all.take(taken + 1) + rest@ =~= all);
            assert forall|a: int, b: int| 0 <= a < b < out@.len() implies seq_le(out@[a].name@, out@[b].name@) by {
                if b < p {
                    assert(out@[a] == before[a] && out@[b] == before[b]);
                } else if b == p {
                    assert(out@[a] == before[a]);
                } else if a < p {
                    assert(out@[a] == before[a] && out@[b] == before[b - 1]);
                    if b - 1 > p {
                        crate::text::lemma_seq_le_transitive(xv.name@, before[p as int].name@, before[b - 1].name@);
                    }
                    crate::text::lemma_seq_le_transitive(before[a].name@, xv.name@, before[b - 1].name@);
                } else if a == p {
                    assert(out@[b] == before[b - 1]);
                    if b - 1 > p {
                        crate::text::lemma_seq_le_transitive(xv.name@, before[p as int].name@, before[b - 1].name@);
                    }
                } else {
                    assert(out@[a] == before[a - 1] && out@[b] == before[b - 1]);
                }
            }
        }
        taken += 1;
    }
    proof {
        assert(all.take(taken as int) =~= all);
    }
    out
}

/// Where `id` was walked, if it was.
fn walked_at(walked: &Vec<Walked>, id: &Oid) -> (r: Option<usize>)
    ensures
        r matches Some(i) ==> i < walked@.len() && walked@[i as int].id@ == id@,
        r is None ==> !walked_ids(walked@).contains(id@),
{
    let mut k: usize = 0;
    while k < walked.len()
        invariant
            k <= walked@.len(),
            forall|x: int| 0 <= x < k ==> walked@[x].id@ != id@,
        decreases walked.len() - k,
    {
        if walked[k].id.same(id) {
            return Some(k);
        }
        k += 1;
    }
    proof {
        if walked_ids(walked@).contains(id@) {
            let x = choose|x: int| 0 <= x < walked_ids(walked@).len() && walked_ids(walked@)[x] == id@;
            assert(walked@[x].id@ == id@);
        }
    }
    None
}

/// Add an edge from node `me` to node `target`.
fn add_edge(built: &mut Vec<Built>, me: usize, target: usize)
    requires
        me < old(built)@.len(),
    ensures
        final(built)@.len() == old(built)@.len(),
        forall|i: int| 0 <= i < old(built)@.len() && i != me ==> #[trigger] final(built)@[i] == old(built)@[i],
        final(built)@[me as int].node == old(built)@[me as int].node,
        final(built)@[me as int].sort_time == old(built)@[me as int].sort_time,
        final(built)@[me as int].parents@ == old(built)@[me as int].parents@.push(target),
{
    let ghost before = built@;
    let mut b = built.remove(me);
    b.parents.push(target);
    built.insert(me, b);
    proof {
        assert forall|i: int| 0 <= i < before.len() && i != me implies #[trigger] built@[i] == before[i] by {
            if i < me {
                assert(built@[i] == before.remove(me as int)[i]);
            } else {
                assert(built@[i] == before.remove(me as int)[i - 1]);
            }
        }
    }
}

/// Every node's parents are nodes.
pub open spec fn edges_in_range(b: Seq<Built>) -> bool {
    forall|i: int, k: int| 0 <= i < b.len() && 0 <= k < b[i].parents@.len() ==> (#[trigger] b[i].parents@[k]) < b.len()
}

/// No node is the open change: that row is the map's first, and only.
pub open spec fn no_open(b: Seq<Built>) -> bool {
    forall|i: int| 0 <= i < b.len() ==> !((#[trigger] b[i]).node is Open)
}

/// An elision stands for at least one commit and leads to one node; a
/// frontier marker leads nowhere.
pub open spec fn elisions_well_shaped(b: Seq<Built>) -> bool {
    forall|i: int| 0 <= i < b.len() ==> match (#[trigger] b[i]).node {
        MapNode::Elided { count: Some(c) } => c >= 1 && b[i].parents@.len() == 1,
        MapNode::Elided { count: None } => b[i].parents@.len() == 0,
        _ => true,
    }
}

/// Contract the walked graph: one commit node per shown commit in walk
/// order, then each shown commit's parents in recorded order, a run of
/// hidden commits between two shown ones becoming one elision node, and a
/// parent the walk did not follow one frontier marker per node (with the
/// run before it elided too).
#[verifier::rlimit(60)]
pub fn contract(walked: &Vec<Walked>, visible: &Vec<bool>, faces: Vec<CommitFace>) -> (r: Vec<Built>)
    requires
        walked_ids(walked@).no_duplicates(),
        visible@.len() == walked@.len(),
        faces@.len() == rank(visible@, walked@.len() as int),
        forall|i: int| 0 <= i < walked@.len() ==> (#[trigger] walked@[i]).time > i64::MIN,
        walked@.len() < usize::MAX / 4,
        forall|i: int| 0 <= i < walked@.len() ==> (#[trigger] walked@[i]).parents@.len() < usize::MAX / 4,
    ensures
        r@.len() >= rank(visible@, walked@.len() as int),
        edges_in_range(r@),
        elisions_well_shaped(r@),
        no_open(r@),
        forall|i: int| 0 <= i < walked@.len() && #[trigger] visible@[i] ==> (r@[rank(visible@, i) as int].node matches MapNode::Commit { id, time, .. }
            && id@ == crate::hex::hex_of(walked@[i].id@) && time == walked@[i].time),
        forall|i: int, k: int, j: int| 0 <= i < walked@.len() && visible@[i] && 0 <= k < walked@[i].parents@.len()
            && 0 <= j < walked@.len() && visible@[j] && #[trigger] walked@[j].id@ == (#[trigger] walked@[i].parents@[k])@
            ==> r@[rank(visible@, i) as int].parents@.contains(rank(visible@, j) as usize),
{
    let n = walked.len();
    let ghost vv = visible@;
    // Node indices for the shown commits.
    let mut node_of: Vec<usize> = Vec::new();
    let mut count: usize = 0;
    let mut i: usize = 0;
    while i < n
        invariant
            n == walked@.len(),
            vv == visible@,
            visible@.len() == n,
            i <= n,
            node_of@.len() == i,
            count == rank(vv, i as int),
            count <= i,
            forall|k: int| 0 <= k < i ==> node_of@[k] == rank(vv, k),
        decreases n - i,
    {
        node_of.push(count);
        if visible[i] {
            count += 1;
        }
        i += 1;
    }
    let total = count;
    // The commit nodes.
    let mut built: Vec<Built> = Vec::new();
    let mut faces = faces;
    let mut i: usize = 0;
    while i < n
        invariant
            n == walked@.len(),
            vv == visible@,
            visible@.len() == n,
            i <= n,
            total == rank(vv, n as int),
            built@.len() == rank(vv, i as int),
            faces@.len() + built@.len() == total,
            edges_in_range(built@),
            elisions_well_shaped(built@),
            no_open(built@),
            forall|k: int| 0 <= k < built@.len() ==> (#[trigger] built@[k]).parents@.len() == 0,
            forall|x: int| 0 <= x < i && #[trigger] vv[x] ==> (built@[rank(vv, x) as int].node matches MapNode::Commit { id, time, .. }
                && id@ == crate::hex::hex_of(walked@[x].id@) && time == walked@[x].time),
        decreases n - i,
    {
        proof {
            lemma_rank_mono(vv, i as int, n as int);
            lemma_rank_mono(vv, i as int, i + 1);
        }
        if visible[i] {
            let face = faces.remove(0);
            let refs = sort_refs(face.refs);
            built.push(Built {
                node: MapNode::Commit {
                    id: walked[i].id.to_hex(),
                    short_id: face.short_id,
                    subject: face.subject,
                    time: walked[i].time,
                    refs,
                },
                parents: Vec::new(),
                sort_time: walked[i].time,
            });
        }
        proof {
            assert forall|x: int| 0 <= x < i + 1 && #[trigger] vv[x] implies (built@[rank(vv, x) as int].node matches MapNode::Commit { id, time, .. }
                && id@ == crate::hex::hex_of(walked@[x].id@) && time == walked@[x].time) by {
                if x < i {
                    lemma_rank_mono(vv, x, i as int);
                }
            }
        }
        i += 1;
    }
    // Their edges, with the elisions and frontier markers they need.
    let mut v: usize = 0;
    while v < n
        invariant
            n == walked@.len(),
            vv == visible@,
            visible@.len() == n,
            walked_ids(walked@).no_duplicates(),
            forall|x: int| 0 <= x < walked@.len() ==> (#[trigger] walked@[x]).time > i64::MIN,
            n < usize::MAX / 4,
            forall|x: int| 0 <= x < walked@.len() ==> (#[trigger] walked@[x]).parents@.len() < usize::MAX / 4,
            node_of@.len() == n,
            forall|k: int| 0 <= k < n ==> node_of@[k] == rank(vv, k),
            total == rank(vv, n as int),
            v <= n,
            built@.len() >= total,
            edges_in_range(built@),
            elisions_well_shaped(built@),
            no_open(built@),
            forall|x: int| 0 <= x < n && #[trigger] vv[x] ==> (built@[rank(vv, x) as int].node matches MapNode::Commit { id, time, .. }
                && id@ == crate::hex::hex_of(walked@[x].id@) && time == walked@[x].time),
            forall|x: int, k: int, j: int| 0 <= x < v && vv[x] && 0 <= k < walked@[x].parents@.len()
                && 0 <= j < n && vv[j] && #[trigger] walked@[j].id@ == (#[trigger] walked@[x].parents@[k])@
                ==> built@[rank(vv, x) as int].parents@.contains(rank(vv, j) as usize),
        decreases n - v,
    {
        if visible[v] {
            let me = node_of[v];
            proof {
                lemma_rank_mono(vv, v as int, n as int);
            }
            let mut marked = false;
            let mut k: usize = 0;
            while k < walked[v].parents.len()
                invariant
                    n == walked@.len(),
                    vv == visible@,
                    visible@.len() == n,
                    walked_ids(walked@).no_duplicates(),
                    forall|x: int| 0 <= x < walked@.len() ==> (#[trigger] walked@[x]).time > i64::MIN,
                    n < usize::MAX / 4,
                    v < n,
                    vv[v as int],
                    me == rank(vv, v as int),
                    me < total,
                    node_of@.len() == n,
                    forall|x: int| 0 <= x < n ==> node_of@[x] == rank(vv, x),
                    total == rank(vv, n as int),
                    k <= walked@[v as int].parents@.len(),
                    built@.len() >= total,
                    edges_in_range(built@),
                    elisions_well_shaped(built@),
            no_open(built@),
                    forall|x: int| 0 <= x < n && #[trigger] vv[x] ==> (built@[rank(vv, x) as int].node matches MapNode::Commit { id, time, .. }
                        && id@ == crate::hex::hex_of(walked@[x].id@) && time == walked@[x].time),
                    forall|x: int, q: int, j: int| 0 <= x < v && vv[x] && 0 <= q < walked@[x].parents@.len()
                        && 0 <= j < n && vv[j] && #[trigger] walked@[j].id@ == (#[trigger] walked@[x].parents@[q])@
                        ==> built@[rank(vv, x) as int].parents@.contains(rank(vv, j) as usize),
                    forall|q: int, j: int| 0 <= q < k && 0 <= j < n && vv[j] && #[trigger] walked@[j].id@ == (#[trigger] walked@[v as int].parents@[q])@
                        ==> built@[me as int].parents@.contains(rank(vv, j) as usize),
                decreases walked@[v as int].parents@.len() - k,
            {
                let p = walked[v].parents[k];
                let ghost before = built@;
                let first = walked_at(walked, &p);
                let direct = match first {
                    Some(at) => visible[at],
                    None => false,
                };
                proof {
                    // A shown commit named `p` is the one `walked_at` found.
                    assert forall|j: int| 0 <= j < n && vv[j] && #[trigger] walked@[j].id@ == p@ implies direct && (first matches Some(at) && at == j) by {
                        match first {
                            Some(at) => {
                                assert(walked_ids(walked@)[j] == walked_ids(walked@)[at as int]);
                            },
                            None => {
                                assert(walked_ids(walked@)[j] == p@);
                            },
                        }
                    }
                    assert(walked@[v as int].parents@[k as int] == p);
                }
                if direct {
                    let at = match first { Some(at) => at, None => 0 };
                    let target = node_of[at];
                    proof {
                        lemma_rank_mono(vv, at as int, n as int);
                    }
                    add_edge(&mut built, me, target);
                } else {
                    // Follow the run of hidden commits down first parents.
                    let mut run_len: usize = 0;
                    let mut run_time: i64 = 0;
                    let mut cur: Option<Oid> = Some(p);
                    let mut end: Option<usize> = None;
                    let mut steps: usize = 0;
                    while steps <= n && end.is_none()
                        invariant
                            n == walked@.len(),
                            visible@.len() == n,
                            run_len <= steps,
                            steps <= n + 1,
                            n < usize::MAX / 4,
                            end matches Some(e) ==> e < n && visible@[e as int],
                        decreases n + 1 - steps,
                    {
                        match cur {
                            None => {
                                steps = n;
                            },
                            Some(c) => {
                                match walked_at(walked, &c) {
                                    Some(at) => {
                                        if visible[at] {
                                            end = Some(at);
                                        } else {
                                            if run_len == 0 {
                                                run_time = walked[at].time;
                                            }
                                            run_len += 1;
                                            cur = if walked[at].parents.len() > 0 { Some(walked[at].parents[0]) } else { None };
                                        }
                                    },
                                    None => {
                                        steps = n;
                                    },
                                }
                            },
                        }
                        steps += 1;
                    }
                    match end {
                        Some(e) => {
                            let target = node_of[e];
                            proof {
                                lemma_rank_mono(vv, e as int, n as int);
                            }
                            if run_len == 0 {
                                add_edge(&mut built, me, target);
                            } else {
                                let idx = built.len();
                                built.push(Built { node: MapNode::Elided { count: Some(run_len) }, parents: vec![target], sort_time: run_time });
                                add_edge(&mut built, me, idx);
                            }
                        },
                        None => {
                            if !marked {
                                marked = true;
                                let vt = walked[v].time - 1;
                                let f = built.len();
                                built.push(Built { node: MapNode::Elided { count: None }, parents: Vec::new(), sort_time: vt });
                                let target = if run_len > 0 {
                                    let e = built.len();
                                    built.push(Built { node: MapNode::Elided { count: Some(run_len) }, parents: vec![f], sort_time: run_time });
                                    e
                                } else {
                                    f
                                };
                                add_edge(&mut built, me, target);
                            }
                        },
                    }
                }
                proof {
                    let ghost after = built@;
                    assert(after.len() >= before.len());
                    assert(after[me as int].node == before[me as int].node);
                    assert(before[me as int].parents@.is_prefix_of(after[me as int].parents@));
                    assert forall|i: int| 0 <= i < before.len() && i != me ==> #[trigger] after[i] == before[i] by {}
                    assert forall|i: int| 0 <= i < after.len() implies match (#[trigger] after[i]).node {
                        MapNode::Elided { count: Some(c) } => c >= 1 && after[i].parents@.len() == 1,
                        MapNode::Elided { count: None } => after[i].parents@.len() == 0,
                        _ => true,
                    } by {
                        if i < before.len() && i != me {
                            assert(after[i] == before[i]);
                        }
                    }
                    assert forall|i: int| 0 <= i < after.len() implies !((#[trigger] after[i]).node is Open) by {
                        if i < before.len() && i != me {
                            assert(after[i] == before[i]);
                        }
                    }
                    assert forall|i: int, q: int| 0 <= i < after.len() && 0 <= q < after[i].parents@.len() implies (#[trigger] after[i].parents@[q]) < after.len() by {
                        if i < before.len() && i != me {
                            assert(after[i] == before[i]);
                        } else if i == me && q < before[me as int].parents@.len() {
                            assert(after[i].parents@[q] == before[i].parents@[q]);
                        }
                    }
                    assert forall|x: int| 0 <= x < n && #[trigger] vv[x] implies (after[rank(vv, x) as int].node matches MapNode::Commit { id, time, .. }
                        && id@ == crate::hex::hex_of(walked@[x].id@) && time == walked@[x].time) by {
                        lemma_rank_mono(vv, x, n as int);
                        if rank(vv, x) != me {
                            assert(after[rank(vv, x) as int] == before[rank(vv, x) as int]);
                        }
                    }
                    assert forall|x: int, q: int, j: int| 0 <= x < v && vv[x] && 0 <= q < walked@[x].parents@.len()
                        && 0 <= j < n && vv[j] && #[trigger] walked@[j].id@ == (#[trigger] walked@[x].parents@[q])@
                        implies after[rank(vv, x) as int].parents@.contains(rank(vv, j) as usize) by {
                        lemma_rank_mono(vv, x, v as int);
                        lemma_rank_mono(vv, x, n as int);
                        assert(before[rank(vv, x) as int].parents@.contains(rank(vv, j) as usize));
                        assert(after[rank(vv, x) as int] == before[rank(vv, x) as int]);
                    }
                    assert forall|q: int, j: int| 0 <= q < k + 1 && 0 <= j < n && vv[j] && #[trigger] walked@[j].id@ == (#[trigger] walked@[v as int].parents@[q])@
                        implies after[me as int].parents@.contains(rank(vv, j) as usize) by {
                        if q < k {
                            let m = choose|m: int| 0 <= m < before[me as int].parents@.len() && before[me as int].parents@[m] == rank(vv, j) as usize;
                            assert(after[me as int].parents@[m] == before[me as int].parents@[m]);
                        } else {
                            assert(walked@[j].id@ == p@);
                            assert(direct);
                            assert(after[me as int].parents@.last() == rank(vv, j) as usize);
                        }
                    }
                }
                k += 1;
            }
        }
        v += 1;
    }
    built
}

/// How many times `x` stands in `s`.
pub open spec fn count_u(s: Seq<usize>, x: usize) -> nat
    decreases s.len(),
{
    if s.len() == 0 {
        0
    } else {
        count_u(s.drop_last(), x) + if s.last() == x { 1nat } else { 0nat }
    }
}

/// Edges into node `x` from the first `m` nodes not yet placed.
pub open spec fn edges_into(b: Seq<Built>, placed: Seq<bool>, x: usize, m: int) -> nat
    decreases m,
{
    if m <= 0 {
        0
    } else {
        edges_into(b, placed, x, m - 1) + if placed[m - 1] { 0nat } else { count_u(b[m - 1].parents@, x) }
    }
}

proof fn lemma_edges_place(b: Seq<Built>, placed: Seq<bool>, c: int, x: usize, m: int)
    requires
        0 <= c < placed.len(),
        placed.len() == b.len(),
        !placed[c],
        0 <= m <= b.len(),
    ensures
        edges_into(b, placed, x, m) == edges_into(b, placed.update(c, true), x, m) + if c < m { count_u(b[c].parents@, x) } else { 0 },
    decreases m,
{
    if m > 0 {
        lemma_edges_place(b, placed, c, x, m - 1);
    }
}

proof fn lemma_edges_none(b: Seq<Built>, placed: Seq<bool>, x: usize, m: int, c: int)
    requires
        edges_into(b, placed, x, m) == 0,
        0 <= c < m <= b.len(),
        placed.len() == b.len(),
        !placed[c],
    ensures
        count_u(b[c].parents@, x) == 0,
    decreases m,
{
    if c < m - 1 {
        lemma_edges_none(b, placed, x, m - 1, c);
    }
}

proof fn lemma_count_u_contains(s: Seq<usize>, x: usize)
    ensures
        s.contains(x) <==> count_u(s, x) > 0,
    decreases s.len(),
{
    if s.len() > 0 {
        lemma_count_u_contains(s.drop_last(), x);
        if s.drop_last().contains(x) {
            let k = choose|k: int| 0 <= k < s.drop_last().len() && s.drop_last()[k] == x;
            assert(s[k] == x);
        }
        if s.contains(x) && s.last() != x {
            let k = choose|k: int| 0 <= k < s.len() && s[k] == x;
            assert(s.drop_last()[k] == x);
        }
    }
}

proof fn lemma_count_u_split(s: Seq<usize>, k: int, x: usize)
    requires
        0 <= k < s.len(),
    ensures
        count_u(s.take(k + 1), x) == count_u(s.take(k), x) + if s[k] == x { 1nat } else { 0nat },
{
    assert(s.take(k + 1).drop_last() =~= s.take(k));
}

/// How many edges the first `m` nodes lead out of.
pub open spec fn total_edges(b: Seq<Built>, m: int) -> nat
    decreases m,
{
    if m <= 0 {
        0
    } else {
        total_edges(b, m - 1) + b[m - 1].parents@.len()
    }
}

proof fn lemma_edges_le_total(b: Seq<Built>, placed: Seq<bool>, x: usize, m: int)
    requires
        0 <= m <= b.len(),
    ensures
        edges_into(b, placed, x, m) <= total_edges(b, m),
    decreases m,
{
    if m > 0 {
        lemma_edges_le_total(b, placed, x, m - 1);
        lemma_count_u_le(b[m - 1].parents@, x);
    }
}

proof fn lemma_total_mono(b: Seq<Built>, m: int, n: int)
    requires
        0 <= m <= n <= b.len(),
    ensures
        total_edges(b, m) <= total_edges(b, n),
    decreases n - m,
{
    if m < n {
        lemma_total_mono(b, m, n - 1);
    }
}

/// The parent relation has no cycle: some rank falls from every node's
/// parents to the node.
pub open spec fn acyclic(b: Seq<Built>) -> bool {
    exists|rank: spec_fn(int) -> nat| #[trigger] rank_falls(b, rank)
}

/// `rank` falls from every node's parents to the node.
pub open spec fn rank_falls(b: Seq<Built>, rank: spec_fn(int) -> nat) -> bool {
    forall|i: int, k: int| 0 <= i < b.len() && 0 <= k < b[i].parents@.len()
        ==> rank(i) < rank(#[trigger] b[i].parents@[k] as int)
}

proof fn lemma_edges_some(b: Seq<Built>, placed: Seq<bool>, x: usize, m: int)
    requires
        edges_into(b, placed, x, m) > 0,
        0 <= m <= b.len(),
        placed.len() == b.len(),
    ensures
        exists|c: int| 0 <= c < m && !placed[c] && count_u(b[c].parents@, x) > 0,
    decreases m,
{
    if m > 0 {
        if placed[m - 1] || count_u(b[m - 1].parents@, x) == 0 {
            lemma_edges_some(b, placed, x, m - 1);
            let c = choose|c: int| 0 <= c < m - 1 && !placed[c] && count_u(b[c].parents@, x) > 0;
            assert(0 <= c < m && !placed[c] && count_u(b[c].parents@, x) > 0);
        }
    }
}

/// Over an acyclic relation, when every unplaced node still has an edge
/// into it from an unplaced node, every node is placed.
proof fn lemma_all_placed(b: Seq<Built>, placed: Seq<bool>, rank: spec_fn(int) -> nat, x: int)
    requires
        placed.len() == b.len(),
        edges_in_range(b),
        rank_falls(b, rank),
        b.len() <= usize::MAX,
        0 <= x < b.len(),
        forall|y: int| 0 <= y < b.len() && !placed[y] ==> edges_into(b, placed, y as usize, b.len() as int) > 0,
    ensures
        placed[x],
    decreases rank(x),
{
    if !placed[x] {
        lemma_edges_some(b, placed, x as usize, b.len() as int);
        let c = choose|c: int| 0 <= c < b.len() && !placed[c] && count_u(b[c].parents@, x as usize) > 0;
        lemma_count_u_contains(b[c].parents@, x as usize);
        let k = choose|k: int| 0 <= k < b[c].parents@.len() && b[c].parents@[k] == x as usize;
        assert(b[c].parents@[k] as int == x);
        assert(rank(c) < rank(x));
        lemma_all_placed(b, placed, rank, c);
    }
}

/// Whether `a` comes out of the ready set before `b`: the newer sort time
/// first, the earlier-built node on a tie.
pub open spec fn ready_before(b: Seq<Built>, a: usize, c: usize) -> bool {
    b[a as int].sort_time > b[c as int].sort_time || (b[a as int].sort_time == b[c as int].sort_time && a <= c)
}

/// Every node that has `y` among its parents stands among the first `j` of
/// `order`: `y` was ready when the `j`-th node came out.
pub open spec fn ready_at(b: Seq<Built>, order: Seq<usize>, j: int, y: usize) -> bool {
    forall|i: int, k: int| 0 <= i < b.len() && 0 <= k < b[i].parents@.len() && #[trigger] b[i].parents@[k] == y
        ==> exists|m: int| 0 <= m < j && order[m] == i
}

proof fn lemma_ready_at_prefix(b: Seq<Built>, o1: Seq<usize>, o2: Seq<usize>, j: int, y: usize)
    requires
        0 <= j <= o1.len(),
        j <= o2.len(),
        forall|m: int| 0 <= m < j ==> o1[m] == o2[m],
    ensures
        ready_at(b, o1, j, y) == ready_at(b, o2, j, y),
{
    if ready_at(b, o1, j, y) {
        assert forall|i: int, k: int| 0 <= i < b.len() && 0 <= k < b[i].parents@.len() && #[trigger] b[i].parents@[k] == y
            implies exists|m: int| 0 <= m < j && o2[m] == i by {
            let m = choose|m: int| 0 <= m < j && o1[m] == i;
            assert(o2[m] == i);
        }
    }
    if ready_at(b, o2, j, y) {
        assert forall|i: int, k: int| 0 <= i < b.len() && 0 <= k < b[i].parents@.len() && #[trigger] b[i].parents@[k] == y
            implies exists|m: int| 0 <= m < j && o1[m] == i by {
            let m = choose|m: int| 0 <= m < j && o2[m] == i;
            assert(o1[m] == i);
        }
    }
}

proof fn lemma_edges_zero(b: Seq<Built>, placed: Seq<bool>, y: usize, m: int)
    requires
        0 <= m <= b.len(),
        placed.len() == b.len(),
        forall|c: int| 0 <= c < m && !placed[c] ==> count_u(#[trigger] b[c].parents@, y) == 0,
    ensures
        edges_into(b, placed, y, m) == 0,
    decreases m,
{
    if m > 0 {
        lemma_edges_zero(b, placed, y, m - 1);
    }
}

/// The rows' order: a topological one, each node before every node it
/// leads to, the newest sort time first and construction order breaking
/// ties; what a cycle keeps out of that order follows in construction
/// order. `r.1` is how many nodes the topological part placed.
pub fn row_order(built: &Vec<Built>) -> (r: (Vec<usize>, usize))
    requires
        edges_in_range(built@),
        total_edges(built@, built@.len() as int) < usize::MAX,
    ensures
        r.0@.len() == built@.len(),
        r.0@.no_duplicates(),
        forall|i: int| 0 <= i < r.0@.len() ==> (#[trigger] r.0@[i]) < built@.len(),
        r.1 <= r.0@.len(),
        forall|i: int, j: int, k: int| 0 <= i < r.0@.len() && 0 <= j < r.0@.len() && 0 <= k < built@[r.0@[i] as int].parents@.len()
            && #[trigger] built@[r.0@[i] as int].parents@[k] == #[trigger] r.0@[j] && j < r.1 ==> i < j,
        acyclic(built@) ==> r.1 == built@.len(),
        forall|j: int, j2: int| 0 <= j < j2 < r.1 && ready_at(built@, r.0@, j, r.0@[j2]) ==> ready_before(
            built@,
            #[trigger] r.0@[j],
            #[trigger] r.0@[j2],
        ),
{
    let n = built.len();
    let ghost b = built@;
    // Edges into each node.
    let mut pending: Vec<usize> = Vec::new();
    let mut placed: Vec<bool> = Vec::new();
    let mut i: usize = 0;
    while i < n
        invariant
            n == built@.len(),
            i <= n,
            pending@.len() == i,
            placed@.len() == i,
            forall|k: int| 0 <= k < i ==> pending@[k] == 0 && !placed@[k],
        decreases n - i,
    {
        pending.push(0);
        placed.push(false);
        i += 1;
    }
    let mut c: usize = 0;
    while c < n
        invariant
            n == built@.len(),
            b == built@,
            edges_in_range(b),
            total_edges(b, n as int) < usize::MAX,
            c <= n,
            pending@.len() == n,
            placed@.len() == n,
            forall|k: int| 0 <= k < n ==> !placed@[k],
            forall|x: int| 0 <= x < n ==> pending@[x] == edges_into(b, placed@, x as usize, c as int),
        decreases n - c,
    {
        let mut k: usize = 0;
        let ghost start = pending@;
        while k < built[c].parents.len()
            invariant
                n == built@.len(),
                b == built@,
                edges_in_range(b),
                total_edges(b, n as int) < usize::MAX,
                c < n,
                k <= b[c as int].parents@.len(),
                pending@.len() == n,
                placed@.len() == n,
                forall|x: int| 0 <= x < n ==> pending@[x] == start[x] + count_u(b[c as int].parents@.take(k as int), x as usize),
                forall|x: int| 0 <= x < n ==> start[x] == edges_into(b, placed@, x as usize, c as int),
            decreases b[c as int].parents@.len() - k,
        {
            let p = built[c].parents[k];
            proof {
                assert(p < n);
                lemma_count_u_split(b[c as int].parents@, k as int, p);
                lemma_count_u_le(b[c as int].parents@.take(k as int), p);
                lemma_edges_le_total(b, placed@, p, c as int);
                lemma_total_mono(b, c + 1, n as int);
            }
            pending.set(p, pending[p] + 1);
            proof {
                assert forall|x: int| 0 <= x < n implies pending@[x] == start[x] + count_u(b[c as int].parents@.take(k + 1), x as usize) by {
                    lemma_count_u_split(b[c as int].parents@, k as int, x as usize);
                }
            }
            k += 1;
        }
        proof {
            assert(b[c as int].parents@.take(b[c as int].parents@.len() as int) =~= b[c as int].parents@);
        }
        c += 1;
    }
    // The ready set: nodes nothing unplaced leads to.
    let mut ready: Vec<usize> = Vec::new();
    let mut i: usize = 0;
    while i < n
        invariant
            n == built@.len(),
            i <= n,
            pending@.len() == n,
            ready@.no_duplicates(),
            forall|k: int| 0 <= k < ready@.len() ==> (#[trigger] ready@[k]) < i && pending@[ready@[k] as int] == 0,
            forall|x: int| 0 <= x < i && pending@[x] == 0 ==> ready@.contains(x as usize),
        decreases n - i,
    {
        let ghost before = ready@;
        if pending[i] == 0 {
            ready.push(i);
            proof {
                assert(ready@.last() == i);
                assert forall|a: int, c2: int| 0 <= a < c2 < ready@.len() implies ready@[a] != ready@[c2] by {
                    if c2 == before.len() {
                        assert(before[a] < i);
                    }
                }
            }
        }
        proof {
            assert forall|x: int| 0 <= x < i + 1 && pending@[x] == 0 implies ready@.contains(x as usize) by {
                if x == i {
                    assert(ready@.last() == i);
                } else {
                    let m = choose|m: int| 0 <= m < before.len() && before[m] == x as usize;
                    assert(ready@[m] == before[m]);
                }
            }
        }
        i += 1;
    }
    let mut order: Vec<usize> = Vec::new();
    loop
        invariant
            n == built@.len(),
            b == built@,
            edges_in_range(b),
            pending@.len() == n,
            placed@.len() == n,
            order@.len() <= n,
            order@.no_duplicates(),
            forall|k: int| 0 <= k < order@.len() ==> (#[trigger] order@[k]) < n && placed@[order@[k] as int],
            forall|x: int| 0 <= x < n && placed@[x] ==> order@.contains(x as usize),
            ready@.no_duplicates(),
            forall|k: int| 0 <= k < ready@.len() ==> (#[trigger] ready@[k]) < n && !placed@[ready@[k] as int] && pending@[ready@[k] as int] == 0,
            forall|x: int| 0 <= x < n && !placed@[x] && pending@[x] == 0 ==> ready@.contains(x as usize),
            forall|x: int| 0 <= x < n ==> pending@[x] == edges_into(b, placed@, x as usize, n as int),
            forall|i: int, j: int, k: int| 0 <= i < n && 0 <= j < order@.len() && 0 <= k < b[i].parents@.len()
                && #[trigger] b[i].parents@[k] == #[trigger] order@[j] ==> exists|m: int| 0 <= m < j && order@[m] == i,
            forall|j: int, y: int| #![trigger order@[j], ready_at(b, order@, j, y as usize)]
                0 <= j < order@.len() && 0 <= y < n && !placed@[y] && ready_at(b, order@, j, y as usize)
                ==> ready_before(b, order@[j], y as usize),
            forall|j: int, j2: int| 0 <= j < j2 < order@.len() && ready_at(b, order@, j, order@[j2]) ==> ready_before(
                b,
                #[trigger] order@[j],
                #[trigger] order@[j2],
            ),
        ensures
            ready@.len() == 0,
        decreases n - order@.len(),
    {
        if ready.len() == 0 {
            break;
        }
        // The ready node that comes out first.
        let mut best: usize = 0;
        let mut q: usize = 1;
        while q < ready.len()
            invariant
                n == built@.len(),
                b == built@,
                1 <= q <= ready@.len(),
                best < q,
                forall|k: int| 0 <= k < ready@.len() ==> (#[trigger] ready@[k]) < n,
                forall|k: int| 0 <= k < q ==> ready_before(b, ready@[best as int], #[trigger] ready@[k]),
            decreases ready.len() - q,
        {
            let a = ready[q];
            let cur = ready[best];
            if built[a].sort_time > built[cur].sort_time || (built[a].sort_time == built[cur].sort_time && a < cur) {
                best = q;
            }
            q += 1;
        }
        let ghost ready_prev = ready@;
        let x = ready.remove(best);
        let ghost placed_before = placed@;
        let ghost order_before = order@;
        proof {
            assert(!placed@[x as int]);
            assert(pending@[x as int] == 0);
            if order@.contains(x) {
                let m = choose|m: int| 0 <= m < order@.len() && order@[m] == x;
                assert(placed@[order@[m] as int]);
            }
            // Every edge into `x` comes from a placed node.
            assert forall|i: int, k: int| 0 <= i < n && 0 <= k < b[i].parents@.len() && #[trigger] b[i].parents@[k] == x implies placed@[i] by {
                if !placed@[i] {
                    lemma_count_u_contains(b[i].parents@, x);
                    assert(b[i].parents@.contains(x));
                    lemma_edges_none(b, placed@, x, n as int, i);
                }
            }
        }
        order.push(x);
        placed.set(x, true);
        proof {
            let jx = order_before.len() as int;
            assert forall|j: int, y: usize| 0 <= j <= jx implies #[trigger] ready_at(b, order@, j, y) == ready_at(b, order_before, j, y) by {
                lemma_ready_at_prefix(b, order@, order_before, j, y);
            }
            assert forall|j: int, y: int| #![trigger order@[j], ready_at(b, order@, j, y as usize)]
                0 <= j < order@.len() && 0 <= y < n && !placed@[y] && ready_at(b, order@, j, y as usize)
                implies ready_before(b, order@[j], y as usize) by {
                assert(ready_at(b, order_before, j, y as usize));
                if j < jx {
                    assert(order@[j] == order_before[j]);
                    assert(!placed_before[y]);
                } else {
                    assert(order@[j] == x);
                    assert(y != x as int);
                    assert(!placed_before[y]);
                    assert forall|c: int| 0 <= c < n && !placed_before[c] implies count_u(#[trigger] b[c].parents@, y as usize) == 0 by {
                        lemma_count_u_contains(b[c].parents@, y as usize);
                        if b[c].parents@.contains(y as usize) {
                            let k = choose|k: int| 0 <= k < b[c].parents@.len() && b[c].parents@[k] == y as usize;
                            assert(b[c].parents@[k] == y as usize);
                            let m = choose|m: int| 0 <= m < jx && order_before[m] == c;
                            assert(placed_before[order_before[m] as int]);
                        }
                    }
                    lemma_edges_zero(b, placed_before, y as usize, n as int);
                    assert(ready_prev.contains(y as usize));
                    let m = choose|m: int| 0 <= m < ready_prev.len() && ready_prev[m] == y as usize;
                    assert(ready_before(b, ready_prev[best as int], ready_prev[m]));
                }
            }
            assert forall|j: int, j2: int| 0 <= j < j2 < order@.len() && ready_at(b, order@, j, order@[j2]) implies ready_before(
                b,
                #[trigger] order@[j],
                #[trigger] order@[j2],
            ) by {
                assert(order@[j] == order_before[j]);
                assert(ready_at(b, order_before, j, order@[j2]));
                if j2 < jx {
                    assert(order@[j2] == order_before[j2]);
                } else {
                    assert(order@[j2] == x);
                    assert(!placed_before[x as int]);
                    assert(ready_at(b, order_before, j, (x as int) as usize));
                }
            }
            assert forall|a: int, c2: int| 0 <= a < c2 < order@.len() implies order@[a] != order@[c2] by {
                if c2 == order_before.len() {
                    assert(order_before[a] != x);
                }
            }
            lemma_order_len(placed@, order@, n as int);
            assert(ready@ == ready_prev.remove(best as int));
            assert forall|j: int| 0 <= j < ready@.len() implies (#[trigger] ready@[j]) < n && !placed@[ready@[j] as int] && pending@[ready@[j] as int] == 0 by {
                if j < best {
                    assert(ready@[j] == ready_prev[j]);
                } else {
                    assert(ready@[j] == ready_prev[j + 1]);
                }
                assert(ready@[j] != x);
            }
            assert forall|y: int| 0 <= y < n && !placed@[y] && pending@[y] == 0 implies ready@.contains(y as usize) by {
                assert(ready_prev.contains(y as usize));
                let m = choose|m: int| 0 <= m < ready_prev.len() && ready_prev[m] == y as usize;
                if m < best {
                    assert(ready@[m] == ready_prev[m]);
                } else {
                    assert(m != best);
                    assert(ready@[m - 1] == ready_prev[m]);
                }
            }
            assert forall|y: int| 0 <= y < n implies #[trigger] edges_into(b, placed_before, y as usize, n as int) == edges_into(b, placed@, y as usize, n as int) + count_u(b[x as int].parents@, y as usize) by {
                lemma_edges_place(b, placed_before, x as int, y as usize, n as int);
            }
        }
        let mut k: usize = 0;
        while k < built[x].parents.len()
            invariant
                n == built@.len(),
                b == built@,
                edges_in_range(b),
                x < n,
                placed@.len() == n,
                placed@[x as int],
                pending@.len() == n,
                k <= b[x as int].parents@.len(),
                forall|y: int| 0 <= y < n ==> pending@[y] + count_u(b[x as int].parents@.take(k as int), y as usize) == edges_into(b, placed@, y as usize, n as int) + count_u(b[x as int].parents@, y as usize),
                ready@.no_duplicates(),
                forall|j: int| 0 <= j < ready@.len() ==> (#[trigger] ready@[j]) < n && !placed@[ready@[j] as int] && pending@[ready@[j] as int] == 0,
                forall|y: int| 0 <= y < n && !placed@[y] && pending@[y] == 0 && !b[x as int].parents@.skip(k as int).contains(y as usize) ==> ready@.contains(y as usize),
            decreases b[x as int].parents@.len() - k,
        {
            let p = built[x].parents[k];
            proof {
                lemma_count_u_split(b[x as int].parents@, k as int, p);
                assert(pending@[p as int] >= 1) by {
                    lemma_count_u_le_take(b[x as int].parents@, k as int, p);
                }
            }
            let np = pending[p] - 1;
            let ghost ready_old = ready@;
            pending.set(p, np);
            if np == 0 && !placed[p] {
                proof {
                    if ready@.contains(p) {
                        let j = choose|j: int| 0 <= j < ready@.len() && ready@[j] == p;
                        assert(ready_old[j] == p);
                    }
                }
                ready.push(p);
                proof {
                    assert forall|a: int, c2: int| 0 <= a < c2 < ready@.len() implies ready@[a] != ready@[c2] by {
                        if c2 == ready_old.len() {
                            assert(ready_old[a] != p);
                        }
                    }
                }
            }
            proof {
                assert forall|y: int| 0 <= y < n implies pending@[y] + count_u(b[x as int].parents@.take(k + 1), y as usize) == edges_into(b, placed@, y as usize, n as int) + count_u(b[x as int].parents@, y as usize) by {
                    lemma_count_u_split(b[x as int].parents@, k as int, y as usize);
                }
                assert forall|j: int| 0 <= j < ready@.len() implies (#[trigger] ready@[j]) < n && !placed@[ready@[j] as int] && pending@[ready@[j] as int] == 0 by {
                    if j < ready_old.len() {
                        assert(ready@[j] == ready_old[j]);
                    }
                }
                assert forall|y: int| 0 <= y < n && !placed@[y] && pending@[y] == 0 && !b[x as int].parents@.skip(k + 1).contains(y as usize) implies ready@.contains(y as usize) by {
                    if y != p {
                        if b[x as int].parents@.skip(k as int).contains(y as usize) {
                            let m = choose|m: int| 0 <= m < b[x as int].parents@.skip(k as int).len() && b[x as int].parents@.skip(k as int)[m] == y as usize;
                            assert(b[x as int].parents@.skip(k as int)[0] == p);
                            assert(m != 0);
                            assert(b[x as int].parents@.skip(k + 1)[m - 1] == y as usize);
                            assert(b[x as int].parents@.skip(k + 1).contains(y as usize));
                        }
                        assert(ready_old.contains(y as usize));
                        let m = choose|m: int| 0 <= m < ready_old.len() && ready_old[m] == y as usize;
                        assert(ready@[m] == ready_old[m]);
                    } else {
                        assert(ready@.last() == p);
                    }
                }
            }
            k += 1;
        }
        proof {
            assert(b[x as int].parents@.take(b[x as int].parents@.len() as int) =~= b[x as int].parents@);
            assert(b[x as int].parents@.skip(b[x as int].parents@.len() as int) =~= Seq::<usize>::empty());
            assert forall|i: int, j: int, k2: int| 0 <= i < n && 0 <= j < order@.len() && 0 <= k2 < b[i].parents@.len()
                && #[trigger] b[i].parents@[k2] == #[trigger] order@[j] implies exists|m: int| 0 <= m < j && order@[m] == i by {
                if j < order_before.len() {
                    assert(order@[j] == order_before[j]);
                    let m = choose|m: int| 0 <= m < j && order_before[m] == i;
                    assert(order@[m] == order_before[m]);
                } else {
                    assert(order@[j] == x);
                    assert(placed_before[i]);
                    assert(order_before.contains(i as usize));
                    let m = choose|m: int| 0 <= m < order_before.len() && order_before[m] == i as usize;
                    assert(order@[m] == order_before[m]);
                }
            }
            assert forall|y: int| 0 <= y < n && placed@[y] implies order@.contains(y as usize) by {
                if y == x {
                    assert(order@.last() == x);
                } else {
                    assert(placed_before[y]);
                    let m = choose|m: int| 0 <= m < order_before.len() && order_before[m] == y as usize;
                    assert(order@[m] == order_before[m]);
                }
            }
            assert forall|j: int| 0 <= j < ready@.len() implies !placed@[#[trigger] ready@[j] as int] by {}
        }
    }
    let kahn = order.len();
    proof {
        if acyclic(b) {
            let rank = choose|rank: spec_fn(int) -> nat| rank_falls(b, rank);
            assert forall|z: int| 0 <= z < b.len() && !placed@[z] implies edges_into(b, placed@, z as usize, b.len() as int) > 0 by {
                if edges_into(b, placed@, z as usize, n as int) == 0 {
                    assert(pending@[z] == 0);
                    assert(ready@.contains(z as usize));
                }
            }
            assert forall|y: int| 0 <= y < n implies placed@[y] by {
                lemma_all_placed(b, placed@, rank, y);
            }
            assert forall|x: usize| (x as int) < n implies #[trigger] order@.contains(x) by {
                assert(placed@[x as int]);
            }
            lemma_order_full(order@, n as int);
        }
    }
    // What a cycle kept out, in construction order.
    let mut i: usize = 0;
    while i < n
        invariant
            n == built@.len(),
            b == built@,
            i <= n,
            placed@.len() == n,
            kahn <= order@.len(),
            order@.no_duplicates(),
            forall|k: int| 0 <= k < order@.len() ==> (#[trigger] order@[k]) < n && placed@[order@[k] as int],
            forall|x: int| 0 <= x < n && placed@[x] ==> order@.contains(x as usize),
            forall|x: int| 0 <= x < i ==> placed@[x],
            forall|i2: int, j: int, k: int| 0 <= i2 < n && 0 <= j < kahn && 0 <= k < b[i2].parents@.len()
                && #[trigger] b[i2].parents@[k] == #[trigger] order@[j] ==> exists|m: int| 0 <= m < j && order@[m] == i2,
            forall|j: int, j2: int| 0 <= j < j2 < kahn && ready_at(b, order@, j, order@[j2]) ==> ready_before(
                b,
                #[trigger] order@[j],
                #[trigger] order@[j2],
            ),
        decreases n - i,
    {
        if !placed[i] {
            proof {
                if order@.contains(i) {
                    let m = choose|m: int| 0 <= m < order@.len() && order@[m] == i;
                    assert(placed@[order@[m] as int]);
                }
            }
            let ghost before = order@;
            order.push(i);
            placed.set(i, true);
            proof {
                assert forall|y: int| 0 <= y < n && placed@[y] implies order@.contains(y as usize) by {
                    if y == i {
                        assert(order@.last() == i);
                    } else {
                        let m = choose|m: int| 0 <= m < before.len() && before[m] == y as usize;
                        assert(order@[m] == before[m]);
                    }
                }
                assert forall|i2: int, j: int, k: int| 0 <= i2 < n && 0 <= j < kahn && 0 <= k < b[i2].parents@.len()
                    && #[trigger] b[i2].parents@[k] == #[trigger] order@[j] implies exists|m: int| 0 <= m < j && order@[m] == i2 by {
                    assert(order@[j] == before[j]);
                    let m = choose|m: int| 0 <= m < j && before[m] == i2;
                    assert(order@[m] == before[m]);
                }
                assert forall|j: int, j2: int| 0 <= j < j2 < kahn && ready_at(b, order@, j, order@[j2]) implies ready_before(
                    b,
                    #[trigger] order@[j],
                    #[trigger] order@[j2],
                ) by {
                    assert(order@[j] == before[j] && order@[j2] == before[j2]);
                    lemma_ready_at_prefix(b, order@, before, j, before[j2]);
                }
            }
        }
        i += 1;
    }
    proof {
        lemma_order_len(placed@, order@, n as int);
        assert forall|x: usize| (x as int) < n implies #[trigger] order@.contains(x) by {
            assert(placed@[x as int]);
        }
        lemma_order_full(order@, n as int);
        assert forall|i2: int, j: int, k: int| 0 <= i2 < order@.len() && 0 <= j < order@.len() && 0 <= k < b[order@[i2] as int].parents@.len()
            && #[trigger] b[order@[i2] as int].parents@[k] == #[trigger] order@[j] && j < kahn implies i2 < j by {
            let m = choose|m: int| 0 <= m < j && order@[m] == order@[i2];
            assert(m == i2);
        }
    }
    (order, kahn)
}

proof fn lemma_count_u_le(s: Seq<usize>, x: usize)
    ensures
        count_u(s, x) <= s.len(),
    decreases s.len(),
{
    if s.len() > 0 {
        lemma_count_u_le(s.drop_last(), x);
    }
}

proof fn lemma_count_u_le_take(s: Seq<usize>, k: int, x: usize)
    requires
        0 <= k < s.len(),
        s[k] == x,
    ensures
        count_u(s.take(k), x) + 1 <= count_u(s, x),
    decreases s.len() - k,
{
    if k + 1 < s.len() {
        lemma_count_u_le_take(s.drop_last(), k, x);
        assert(s.drop_last().take(k) =~= s.take(k));
    } else {
        assert(s.drop_last() =~= s.take(k));
    }
}

/// A list holding every node is at least as long as the nodes.
proof fn lemma_order_full(order: Seq<usize>, n: int)
    requires
        0 <= n <= usize::MAX,
        forall|x: usize| (x as int) < n ==> #[trigger] order.contains(x),
    ensures
        order.len() >= n,
{
    let all = Seq::new(n as nat, |i: int| i as usize);
    assert forall|i: int, j: int| 0 <= i < all.len() && 0 <= j < all.len() && i != j implies all[i] != all[j] by {
        assert(all[i] == i as usize && all[j] == j as usize);
    }
    assert(all.no_duplicates());
    all.unique_seq_to_set();
    order.lemma_cardinality_of_set();
    assert forall|x: usize| all.to_set().contains(x) implies order.to_set().contains(x) by {
        let k = choose|k: int| 0 <= k < all.len() && all[k] == x;
        assert(all[k] == k as usize);
        assert(order.contains(x));
    }
    vstd::set_lib::lemma_len_subset(all.to_set(), order.to_set());
}

/// A list of distinct placed nodes is no longer than the nodes.
proof fn lemma_order_len(placed: Seq<bool>, order: Seq<usize>, n: int)
    requires
        placed.len() == n,
        order.no_duplicates(),
        forall|k: int| 0 <= k < order.len() ==> (#[trigger] order[k]) < n,
    ensures
        order.len() <= n,
{
    let all = Seq::new(n as nat, |i: int| i as usize);
    order.unique_seq_to_set();
    all.lemma_cardinality_of_set();
    assert forall|x: usize| order.to_set().contains(x) implies all.to_set().contains(x) by {
        let k = choose|k: int| 0 <= k < order.len() && order[k] == x;
        assert(all[x as int] == x);
    }
    vstd::set_lib::lemma_len_subset(order.to_set(), all.to_set());
}

/// Where a node stands in the order, as a row: one past its position, the
/// `@` row taking row 0.
pub open spec fn row_of(order: Seq<usize>, x: usize) -> int {
    order.index_of(x) + 1
}

/// The node the `@` row sits on: the shown commit HEAD's tip is, if it was
/// shown.
fn head_node(walked: &Vec<Walked>, visible: &Vec<bool>, tip: Option<Oid>) -> (r: Option<usize>)
    requires
        visible@.len() == walked@.len(),
        walked@.len() < usize::MAX,
    ensures
        r matches Some(x) ==> exists|i: int| 0 <= i < walked@.len() && visible@[i] && x == rank(visible@, i)
            && tip is Some && walked@[i].id@ == tip->0@
            && forall|j: int| 0 <= j < i ==> !(visible@[j] && #[trigger] walked@[j].id@ == tip->0@),
        r is None <==> (tip matches Some(t) ==> forall|i: int| 0 <= i < walked@.len() ==> !(visible@[i]
            && #[trigger] walked@[i].id@ == t@)),
{
    match tip {
        None => None,
        Some(t) => {
            let mut count: usize = 0;
            let mut i: usize = 0;
            while i < walked.len()
                invariant
                    visible@.len() == walked@.len(),
                    walked@.len() < usize::MAX,
                    tip == Some(t),
                    i <= walked@.len(),
                    count == rank(visible@, i as int),
                    count <= i,
                    forall|j: int| 0 <= j < i ==> !(visible@[j] && #[trigger] walked@[j].id@ == t@),
                decreases walked.len() - i,
            {
                if visible[i] && walked[i].id.same(&t) {
                    proof {
                        assert(0 <= i < walked@.len() && visible@[i as int] && count == rank(visible@, i as int)
                            && tip is Some && walked@[i as int].id@ == tip->0@
                            && forall|j: int| 0 <= j < i ==> !(visible@[j] && #[trigger] walked@[j].id@ == tip->0@));
                    }
                    return Some(count);
                }
                if visible[i] {
                    count += 1;
                }
                i += 1;
            }
            None
        },
    }
}

/// The finished map: the `@` row on top, sitting on HEAD's tip when that
/// commit was shown, then each node in the order given, its parents turned
/// into rows. For every node the topological part placed, its parents'
/// rows stand below its own.
pub fn assemble(
    walked: &Vec<Walked>,
    visible: &Vec<bool>,
    built: Vec<Built>,
    order: Vec<usize>,
    placed: usize,
    open: MapNode,
    head_tip: Option<Oid>,
    truncated: bool,
) -> (r: BranchMap)
    requires
        visible@.len() == walked@.len(),
        walked@.len() < usize::MAX,
        built@.len() < usize::MAX - 1,
        edges_in_range(built@),
        order@.len() == built@.len(),
        order@.no_duplicates(),
        forall|i: int| 0 <= i < order@.len() ==> (#[trigger] order@[i]) < built@.len(),
        placed <= order@.len(),
        forall|i: int, j: int, k: int| 0 <= i < order@.len() && 0 <= j < order@.len() && 0 <= k < built@[order@[i] as int].parents@.len()
            && #[trigger] built@[order@[i] as int].parents@[k] == #[trigger] order@[j] && j < placed ==> i < j,
    ensures
        r.truncated == truncated,
        r.rows@.len() == built@.len() + 1,
        r.rows@[0].node == open,
        forall|x: int| 0 <= x < r.rows@[0].parents@.len() ==> (#[trigger] r.rows@[0].parents@[x]) >= 1,
        forall|q: int| 1 <= q < r.rows@.len() ==> (#[trigger] r.rows@[q]).node == built@[order@[q - 1] as int].node
            && r.rows@[q].parents@.len() == built@[order@[q - 1] as int].parents@.len(),
        forall|q: int, k: int| 1 <= q < r.rows@.len() && 0 <= k < r.rows@[q].parents@.len() ==>
            #[trigger] r.rows@[q].parents@[k] == row_of(order@, built@[order@[q - 1] as int].parents@[k]),
        forall|q: int, k: int| 1 <= q < r.rows@.len() && 0 <= k < r.rows@[q].parents@.len() && #[trigger] r.rows@[q].parents@[k] <= placed ==>
            r.rows@[q].parents@[k] > q,
        forall|q: int, k: int| 0 <= q < r.rows@.len() && 0 <= k < r.rows@[q].parents@.len() ==>
            #[trigger] r.rows@[q].parents@[k] < r.rows@.len(),
        placed == order@.len() ==> forall|q: int, k: int| 0 <= q < r.rows@.len() && 0 <= k < r.rows@[q].parents@.len() ==>
            q < #[trigger] r.rows@[q].parents@[k],
{
    let n = built.len();
    // Each node's row.
    let mut pos: Vec<usize> = Vec::new();
    let mut i: usize = 0;
    while i < n
        invariant
            i <= n,
            pos@.len() == i,
            forall|k: int| 0 <= k < i ==> pos@[k] == 0,
        decreases n - i,
    {
        pos.push(0);
        i += 1;
    }
    let mut i: usize = 0;
    while i < n
        invariant
            n == built@.len(),
            n < usize::MAX - 1,
            order@.len() == n,
            order@.no_duplicates(),
            forall|k: int| 0 <= k < order@.len() ==> (#[trigger] order@[k]) < n,
            i <= n,
            pos@.len() == n,
            forall|k: int| 0 <= k < i ==> pos@[order@[k] as int] == k + 1,
        decreases n - i,
    {
        let ghost before = pos@;
        pos.set(order[i], i + 1);
        proof {
            assert forall|k: int| 0 <= k < i + 1 implies pos@[order@[k] as int] == k + 1 by {
                if k < i {
                    assert(order@[k] != order@[i as int]);
                }
            }
        }
        i += 1;
    }
    proof {
        assert forall|x: int| 0 <= x < n implies pos@[x] == row_of(order@, x as usize) && pos@[x] >= 1 && pos@[x] <= n by {
            lemma_in_permutation(order@, x as usize, n as int);
            let k = order@.index_of(x as usize);
            assert(order@[k] == x as usize);
        }
    }
    let mut rows: Vec<MapRow> = Vec::new();
    let open_parents = match head_node(walked, visible, head_tip) {
        Some(x) => {
            if x < n {
                vec![pos[x]]
            } else {
                Vec::new()
            }
        },
        None => Vec::new(),
    };
    rows.push(MapRow { node: open, parents: open_parents });
    let ghost orig = built@;
    let mut built = built;
    let mut q: usize = 0;
    while q < n
        invariant
            n == orig.len(),
            built@.len() == n,
            n < usize::MAX - 1,
            edges_in_range(orig),
            order@.len() == n,
            order@.no_duplicates(),
            forall|k: int| 0 <= k < order@.len() ==> (#[trigger] order@[k]) < n,
            forall|k: int| q <= k < n ==> built@[order@[k] as int] == orig[order@[k] as int],
            pos@.len() == n,
            forall|x: int| 0 <= x < n ==> pos@[x] == row_of(order@, x as usize) && pos@[x] >= 1,
            forall|k: int| 0 <= k < n ==> pos@[order@[k] as int] == k + 1,
            q <= n,
            rows@.len() == q + 1,
            rows@[0].node == open,
            forall|x: int| 0 <= x < rows@[0].parents@.len() ==> (#[trigger] rows@[0].parents@[x]) >= 1
                && rows@[0].parents@[x] <= n,
            forall|r: int| 1 <= r < rows@.len() ==> (#[trigger] rows@[r]).node == orig[order@[r - 1] as int].node
                && rows@[r].parents@.len() == orig[order@[r - 1] as int].parents@.len(),
            forall|r: int, k: int| 1 <= r < rows@.len() && 0 <= k < rows@[r].parents@.len() ==>
                #[trigger] rows@[r].parents@[k] == row_of(order@, orig[order@[r - 1] as int].parents@[k]),
        decreases n - q,
    {
        let node = order[q];
        let mut ps: Vec<usize> = Vec::new();
        let mut k: usize = 0;
        while k < built[node].parents.len()
            invariant
                n == orig.len(),
                built@.len() == n,
                edges_in_range(orig),
                node < n,
                built@[node as int] == orig[node as int],
                pos@.len() == n,
                forall|x: int| 0 <= x < n ==> pos@[x] == row_of(order@, x as usize),
                k <= orig[node as int].parents@.len(),
                ps@.len() == k,
                forall|j: int| 0 <= j < k ==> ps@[j] == row_of(order@, orig[node as int].parents@[j]),
            decreases orig[node as int].parents@.len() - k,
        {
            let p = built[node].parents[k];
            ps.push(pos[p]);
            k += 1;
        }
        let ghost before = built@;
        let taken = built.remove(node);
        built.insert(node, Built { node: MapNode::Elided { count: None }, parents: Vec::new(), sort_time: 0 });
        proof {
            assert forall|k2: int| q + 1 <= k2 < n implies built@[order@[k2] as int] == orig[order@[k2] as int] by {
                let x = order@[k2] as int;
                assert(order@[k2] != order@[q as int]);
                if x < node {
                    assert(built@[x] == before.remove(node as int)[x]);
                } else {
                    assert(built@[x] == before.remove(node as int)[x - 1]);
                }
            }
        }
        rows.push(MapRow { node: taken.node, parents: ps });
        q += 1;
    }
    proof {
        assert forall|r: int, k: int| 1 <= r < rows@.len() && 0 <= k < rows@[r].parents@.len() && #[trigger] rows@[r].parents@[k] <= placed implies
            rows@[r].parents@[k] > r by {
            let x = orig[order@[r - 1] as int].parents@[k];
            lemma_in_permutation(order@, x, n as int);
            let j = order@.index_of(x);
            assert(order@[j] == x);
            assert(j < placed);
            assert(r - 1 < j);
        }
        assert forall|r: int, k: int| 0 <= r < rows@.len() && 0 <= k < rows@[r].parents@.len() implies
            #[trigger] rows@[r].parents@[k] < rows@.len() && (placed == order@.len() ==> r < rows@[r].parents@[k]) by {
            if r >= 1 {
                let x = orig[order@[r - 1] as int].parents@[k];
                lemma_in_permutation(order@, x, n as int);
                let j = order@.index_of(x);
                assert(order@[j] == x);
                if placed == order@.len() {
                    assert(r - 1 < j);
                }
            }
        }
    }
    BranchMap { rows, truncated }
}

/// The map's rows from its nodes, in the order `row_order` gives and under
/// the `@` row. Row 0 alone is the open change; every parent row stands
/// inside the map and, when the parent relation has no cycle, below its
/// child, so the rows read newest to oldest.
pub fn lay_out(
    walked: &Vec<Walked>,
    visible: &Vec<bool>,
    built: Vec<Built>,
    open: MapNode,
    head_tip: Option<Oid>,
    truncated: bool,
) -> (r: BranchMap)
    requires
        visible@.len() == walked@.len(),
        walked@.len() < usize::MAX,
        built@.len() < usize::MAX - 1,
        edges_in_range(built@),
        total_edges(built@, built@.len() as int) < usize::MAX,
        no_open(built@),
        open is Open,
    ensures
        r.truncated == truncated,
        r.rows@.len() == built@.len() + 1,
        r.rows@[0].node == open,
        forall|q: int| 1 <= q < r.rows@.len() ==> !((#[trigger] r.rows@[q]).node is Open),
        forall|q: int, k: int| 0 <= q < r.rows@.len() && 0 <= k < r.rows@[q].parents@.len() ==>
            #[trigger] r.rows@[q].parents@[k] < r.rows@.len(),
        acyclic(built@) ==> forall|q: int, k: int| 0 <= q < r.rows@.len() && 0 <= k < r.rows@[q].parents@.len() ==>
            q < #[trigger] r.rows@[q].parents@[k],
{
    let ghost b = built@;
    let (order, placed) = row_order(&built);
    let r = assemble(walked, visible, built, order, placed, open, head_tip, truncated);
    proof {
        assert forall|q: int| 1 <= q < r.rows@.len() implies !((#[trigger] r.rows@[q]).node is Open) by {
            assert(r.rows@[q].node == b[order@[q - 1] as int].node);
        }
    }
    r
}

/// In a permutation of the nodes every node stands somewhere, once.
proof fn lemma_in_permutation(order: Seq<usize>, x: usize, n: int)
    requires
        order.len() == n,
        order.no_duplicates(),
        forall|k: int| 0 <= k < order.len() ==> (#[trigger] order[k]) < n,
        (x as int) < n,
    ensures
        order.contains(x),
        0 <= order.index_of(x) < n,
        order[order.index_of(x)] == x,
{
    if !order.contains(x) {
        // Without `x` the list holds distinct values below `n` other than
        // one, so it is shorter than `n`.
        let others = Seq::new((n - 1) as nat, |i: int| if i < x { i as usize } else { (i + 1) as usize });
        assert forall|k: int| 0 <= k < order.len() implies others.contains(#[trigger] order[k]) by {
            let v = order[k];
            if v < x {
                assert(others[v as int] == v);
            } else {
                assert(v != x);
                assert(others[v - 1] == v);
            }
        }
        crate::cascade::lemma_no_longer_u(order, others);
    }
}

/// A branch's claim on the node its tip resolves to. The branch underfoot
/// gets none: it lives on the `@` row, and the tip below must not repeat it.
pub fn map_ref(name: &str, parked: Option<usize>, pending_description: Option<String>) -> (r: MapRef)
    ensures
        r.name@ == name@,
        !r.current,
        r.anonymous == crate::branch::ANON_PREFIX@.is_prefix_of(name@),
        r.parked == parked,
        r.pending_description == pending_description,
{
    MapRef {
        name: crate::text::owned(name),
        current: false,
        anonymous: crate::branch::is_anonymous(name),
        parked,
        pending_description,
    }
}
} // verus!
