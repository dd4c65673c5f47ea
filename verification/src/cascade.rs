//! The cascade: what a rewrite does to the branches stacked above the one
//! it moved.
//!
//! A branch records the branch it sits on, and following is the whole point
//! of recording it. When a base is rewritten, every local branch whose base
//! resolves to it is replayed onto the new tip, parent before child, through
//! the whole tree. Here is the stack those walks read: each local branch
//! filed under the local branch its base resolves to, and the two questions
//! asked of it, a branch's children and everything stacked above it.

use vstd::prelude::*;
use crate::text::{seq_lt, seq_le, string_views, strings_sorted};

pub mod walk;

verus! {

/// The stack as branch metadata records it: one link per local branch that
/// sits on another local branch, the branch first and its parent second.
pub struct Stack {
    pub links: Vec<(String, String)>,
}

/// The links as texts.
pub open spec fn link_views(l: Seq<(String, String)>) -> Seq<(Seq<char>, Seq<char>)> {
    l.map_values(|e: (String, String)| (e.0@, e.1@))
}

/// Whether `c` sits directly on `p`.
pub open spec fn is_link(links: Seq<(Seq<char>, Seq<char>)>, c: Seq<char>, p: Seq<char>) -> bool {
    exists|i: int| 0 <= i < links.len() && #[trigger] links[i] == (c, p)
}

/// The branches sitting directly on `b`, in link order.
pub open spec fn child_names(links: Seq<(Seq<char>, Seq<char>)>, b: Seq<char>) -> Seq<Seq<char>> {
    links.filter(|e: (Seq<char>, Seq<char>)| e.1 == b).map_values(|e: (Seq<char>, Seq<char>)| e.0)
}

/// Each name in `p` sits directly on the one before it.
pub open spec fn path_in(links: Seq<(Seq<char>, Seq<char>)>, p: Seq<Seq<char>>) -> bool {
    forall|k: int| 0 <= k < p.len() - 1 ==> #[trigger] is_link(links, p[k + 1], p[k])
}

/// Whether `to` is stacked, at any height, above `from`.
pub open spec fn reaches(links: Seq<(Seq<char>, Seq<char>)>, from: Seq<char>, to: Seq<char>) -> bool {
    exists|p: Seq<Seq<char>>| p.len() >= 2 && p[0] == from && p.last() == to && #[trigger] path_in(links, p)
}

/// The link a branch and its base's full ref make: the branch sits on the
/// local branch the ref names, unless the ref is no local branch or names
/// the branch itself.
pub open spec fn link_of(name: Seq<char>, base: Option<Seq<char>>) -> Option<(Seq<char>, Seq<char>)> {
    match base {
        Some(r) => if "refs/heads/"@.is_prefix_of(r) && r.skip("refs/heads/"@.len() as int) != name {
            Some((name, r.skip("refs/heads/"@.len() as int)))
        } else {
            None
        },
        None => None,
    }
}

/// The links a list of branches and their bases make, in list order.
pub open spec fn links_of(bs: Seq<(Seq<char>, Option<Seq<char>>)>) -> Seq<(Seq<char>, Seq<char>)>
    decreases bs.len(),
{
    if bs.len() == 0 {
        Seq::empty()
    } else {
        let rest = links_of(bs.drop_last());
        match link_of(bs.last().0, bs.last().1) {
            Some(l) => rest.push(l),
            None => rest,
        }
    }
}

impl View for Stack {
    type V = Seq<(Seq<char>, Seq<char>)>;

    open spec fn view(&self) -> Seq<(Seq<char>, Seq<char>)> {
        link_views(self.links@)
    }
}

pub(crate) fn contains_str(v: &Vec<String>, x: &str) -> (r: bool)
    ensures
        r == string_views(v@).contains(x@),
{
    let mut i: usize = 0;
    while i < v.len()
        invariant
            i <= v@.len(),
            forall|k: int| 0 <= k < i ==> v@[k]@ != x@,
        decreases v.len() - i,
    {
        if crate::text::str_eq(v[i].as_str(), x) {
            assert(string_views(v@)[i as int] == x@);
            return true;
        }
        i += 1;
    }
    proof {
        if string_views(v@).contains(x@) {
            let k = choose|k: int| 0 <= k < string_views(v@).len() && string_views(v@)[k] == x@;
            assert(v@[k]@ == x@);
        }
    }
    false
}

/// A list without repeats, each of whose names occurs in `all`, is no
/// longer than `all`.
proof fn lemma_pigeon(found: Seq<Seq<char>>, all: Seq<Seq<char>>)
    requires
        found.no_duplicates(),
        forall|k: int| 0 <= k < found.len() ==> all.contains(#[trigger] found[k]),
    ensures
        found.len() <= all.len(),
{
    found.unique_seq_to_set();
    all.lemma_cardinality_of_set();
    assert forall|x: Seq<char>| found.to_set().contains(x) implies all.to_set().contains(x) by {
        let k = choose|k: int| 0 <= k < found.len() && found[k] == x;
        assert(all.contains(found[k]));
    }
    vstd::set_lib::lemma_len_subset(found.to_set(), all.to_set());
}

/// A list of distinct texts, each found in `all`, is no longer than `all`.
pub proof fn lemma_no_longer(found: Seq<Seq<char>>, all: Seq<Seq<char>>)
    requires
        forall|a: int, b: int| 0 <= a < found.len() && 0 <= b < found.len() && a != b ==> found[a] != found[b],
        forall|k: int| 0 <= k < found.len() ==> all.contains(#[trigger] found[k]),
    ensures
        found.len() <= all.len(),
{
    lemma_pigeon(found, all);
}

/// A list of distinct numbers, each found in `all`, is no longer than
/// `all`.
pub proof fn lemma_no_longer_u(found: Seq<usize>, all: Seq<usize>)
    requires
        found.no_duplicates(),
        forall|k: int| 0 <= k < found.len() ==> all.contains(#[trigger] found[k]),
    ensures
        found.len() <= all.len(),
{
    found.unique_seq_to_set();
    all.lemma_cardinality_of_set();
    assert forall|x: usize| found.to_set().contains(x) implies all.to_set().contains(x) by {
        let k = choose|k: int| 0 <= k < found.len() && found[k] == x;
        assert(all.contains(found[k]));
    }
    vstd::set_lib::lemma_len_subset(found.to_set(), all.to_set());
}

/// A set closed under stepping up a link from `b` or from itself holds
/// everything stacked above `b`, but `b`.
proof fn lemma_closed_holds(links: Seq<(Seq<char>, Seq<char>)>, b: Seq<char>, found: Seq<Seq<char>>, p: Seq<Seq<char>>, k: int)
    requires
        forall|i: int| 0 <= i < links.len() && (links[i].1 == b || found.contains(links[i].1)) && links[i].0 != b ==> found.contains(#[trigger] links[i].0),
        p.len() >= 1,
        p[0] == b,
        path_in(links, p),
        0 <= k < p.len(),
    ensures
        p[k] == b || found.contains(p[k]),
    decreases k,
{
    if k > 0 {
        lemma_closed_holds(links, b, found, p, k - 1);
        let j = k - 1;
        assert(is_link(links, p[j + 1], p[j]));
        assert(p[j + 1] == p[k]);
        let i = choose|i: int| 0 <= i < links.len() && #[trigger] links[i] == (p[k], p[k - 1]);
        assert(links[i].0 == p[k] && links[i].1 == p[k - 1]);
    }
}

/// A base's full ref names `p` exactly when it is a local branch's ref whose
/// short name is `p`.
proof fn lemma_heads_ref(r: Seq<char>, p: Seq<char>)
    ensures
        ("refs/heads/"@.is_prefix_of(r) && r.skip("refs/heads/"@.len() as int) == p) <==> r == "refs/heads/"@ + p,
{
    let h = "refs/heads/"@;
    if r == h + p {
        assert(r.subrange(0, h.len() as int) =~= h);
        assert(r.skip(h.len() as int) =~= p);
    }
    if h.is_prefix_of(r) && r.skip(h.len() as int) == p {
        assert(r.subrange(0, h.len() as int) == h);
        assert(r =~= h + p);
    }
}

/// `c` sits directly on `p` in the stack a list of branches makes exactly
/// when `c` is not `p` and some entry names `c` with `p`'s ref as its base.
pub proof fn lemma_link_of_bases(bs: Seq<(Seq<char>, Option<Seq<char>>)>, c: Seq<char>, p: Seq<char>)
    ensures
        is_link(links_of(bs), c, p) <==> (c != p && exists|i: int| 0 <= i < bs.len() && #[trigger] bs[i] == (c, Some("refs/heads/"@ + p))),
    decreases bs.len(),
{
    let ls = links_of(bs);
    if bs.len() > 0 {
        let rest = bs.drop_last();
        lemma_link_of_bases(rest, c, p);
        let (n, base) = bs.last();
        if let Some(r) = base {
            lemma_heads_ref(r, p);
        }
        let here = c != p && bs.last() == (c, Some("refs/heads/"@ + p));
        assert(here <==> link_of(n, base) == Some((c, p)));
        if is_link(ls, c, p) {
            let i = choose|i: int| 0 <= i < ls.len() && #[trigger] ls[i] == (c, p);
            if i < links_of(rest).len() {
                assert(ls[i] == links_of(rest)[i]);
                assert(is_link(links_of(rest), c, p));
                let j = choose|j: int| 0 <= j < rest.len() && #[trigger] rest[j] == (c, Some("refs/heads/"@ + p));
                assert(bs[j] == rest[j]);
            } else {
                assert(bs[bs.len() - 1] == bs.last());
            }
        }
        if c != p && exists|i: int| 0 <= i < bs.len() && #[trigger] bs[i] == (c, Some("refs/heads/"@ + p)) {
            let i = choose|i: int| 0 <= i < bs.len() && #[trigger] bs[i] == (c, Some("refs/heads/"@ + p));
            if i < bs.len() - 1 {
                assert(rest[i] == bs[i]);
                let k = choose|k: int| 0 <= k < links_of(rest).len() && #[trigger] links_of(rest)[k] == (c, p);
                assert(ls[k] == links_of(rest)[k]);
            } else {
                assert(ls[ls.len() - 1] == (c, p));
            }
        }
    }
}

/// The stack a list of branches and their bases makes links no branch to
/// itself: whatever sits directly on `b` is not `b` and is stacked above
/// it, and nothing sits on `b` when no other branch's base is `b`'s ref.
pub proof fn lemma_children_of_bases(bs: Seq<(Seq<char>, Option<Seq<char>>)>, b: Seq<char>)
    ensures
        forall|c: Seq<char>| #[trigger] is_link(links_of(bs), c, b) ==> c != b && reaches(links_of(bs), b, c),
        (forall|i: int| 0 <= i < bs.len() ==> #[trigger] bs[i].1 != Some("refs/heads/"@ + b) || bs[i].0 == b)
            ==> forall|c: Seq<char>| !#[trigger] is_link(links_of(bs), c, b),
{
    let ls = links_of(bs);
    assert forall|c: Seq<char>| #[trigger] is_link(ls, c, b) implies c != b && reaches(ls, b, c) by {
        lemma_link_of_bases(bs, c, b);
        let path = seq![b, c];
        assert(path_in(ls, path)) by {
            assert forall|k: int| 0 <= k < path.len() - 1 implies #[trigger] is_link(ls, path[k + 1], path[k]) by {
                assert(k == 0);
            }
        }
        assert(path[0] == b && path.last() == c);
    }
    if forall|i: int| 0 <= i < bs.len() ==> #[trigger] bs[i].1 != Some("refs/heads/"@ + b) || bs[i].0 == b {
        assert forall|c: Seq<char>| !#[trigger] is_link(ls, c, b) by {
            lemma_link_of_bases(bs, c, b);
            if is_link(ls, c, b) {
                let i = choose|i: int| 0 <= i < bs.len() && #[trigger] bs[i] == (c, Some("refs/heads/"@ + b));
                assert(bs[i].1 == Some("refs/heads/"@ + b));
            }
        }
    }
}

impl Stack {
    /// The stack a list of local branches and their bases' full refs make.
    pub fn from_bases(branches: &Vec<(String, Option<String>)>) -> (r: Stack)
        ensures
            r@ == links_of(branches@.map_values(|e: (String, Option<String>)| (e.0@, crate::text::opt_view(e.1)))),
    {
        let ghost bs = branches@.map_values(|e: (String, Option<String>)| (e.0@, crate::text::opt_view(e.1)));
        let mut links: Vec<(String, String)> = Vec::new();
        let mut i: usize = 0;
        while i < branches.len()
            invariant
                i <= branches@.len(),
                bs == branches@.map_values(|e: (String, Option<String>)| (e.0@, crate::text::opt_view(e.1))),
                link_views(links@) == links_of(bs.take(i as int)),
            decreases branches.len() - i,
        {
            proof {
                assert(bs.take(i + 1).drop_last() =~= bs.take(i as int));
                assert(bs.take(i + 1).last() == bs[i as int]);
            }
            let ghost before = link_views(links@);
            match &branches[i].1 {
                Some(r) => {
                    match crate::text::strip_prefix(r.as_str(), "refs/heads/") {
                        Some(parent) => {
                            if !crate::text::str_eq(parent.as_str(), branches[i].0.as_str()) {
                                links.push((branches[i].0.clone(), parent));
                                assert(link_views(links@) =~= before.push((branches@[i as int].0@, parent@)));
                            }
                        },
                        None => {},
                    }
                },
                None => {},
            }
            i += 1;
        }
        proof {
            assert(bs.take(bs.len() as int) =~= bs);
        }
        Stack { links }
    }

    /// The local branches whose base resolves to `branch`, sorted by name.
    pub fn children(&self, branch: &str) -> (r: Vec<String>)
        ensures
            strings_sorted(string_views(r@)),
            string_views(r@).to_multiset() == child_names(self@, branch@).to_multiset(),
            forall|k: int| 0 <= k < r@.len() ==> is_link(self@, #[trigger] r@[k]@, branch@),
            forall|c: Seq<char>| #[trigger] is_link(self@, c, branch@) ==> string_views(r@).contains(c),
    {
        let mut out: Vec<String> = Vec::new();
        let mut i: usize = 0;
        let ghost ls = self@;
        while i < self.links.len()
            invariant
                i <= self.links@.len(),
                ls == self@,
                string_views(out@) == child_names(ls.take(i as int), branch@),
                forall|k: int| 0 <= k < out@.len() ==> is_link(ls, #[trigger] out@[k]@, branch@),
                forall|k: int| 0 <= k < i && (#[trigger] ls[k]).1 == branch@ ==> string_views(out@).contains(ls[k].0),
            decreases self.links.len() - i,
        {
            proof {
                assert(ls.take(i + 1) =~= ls.take(i as int).push(ls[i as int]));
                ls.take(i as int).lemma_filter_push(ls[i as int], |e: (Seq<char>, Seq<char>)| e.1 == branch@);
            }
            let ghost before = string_views(out@);
            if crate::text::str_eq(self.links[i].1.as_str(), branch) {
                out.push(self.links[i].0.clone());
                assert(string_views(out@) =~= before.push(ls[i as int].0));
                assert(ls[i as int] == (ls[i as int].0, branch@));
                assert(is_link(ls, ls[i as int].0, branch@));
                assert(string_views(out@)[out@.len() - 1] == ls[i as int].0);
            }
            proof {
                assert forall|k: int| 0 <= k <= i && (#[trigger] ls[k]).1 == branch@ implies string_views(out@).contains(ls[k].0) by {
                    if k < i {
                        let j = choose|j: int| 0 <= j < before.len() && before[j] == ls[k].0;
                        assert(string_views(out@)[j] == before[j]);
                    } else {
                        assert(string_views(out@)[out@.len() - 1] == ls[i as int].0);
                    }
                }
            }
            proof {
                let f = ls.take(i as int).filter(|e: (Seq<char>, Seq<char>)| e.1 == branch@);
                if ls[i as int].1 == branch@ {
                    assert(f.push(ls[i as int]).map_values(|e: (Seq<char>, Seq<char>)| e.0) =~= f.map_values(|e: (Seq<char>, Seq<char>)| e.0).push(ls[i as int].0));
                }
            }
            i += 1;
        }
        proof {
            assert(ls.take(ls.len() as int) =~= ls);
        }
        let r = crate::text::sort_strings(out);
        proof {
            string_views(r@).to_multiset_ensures();
            string_views(out@).to_multiset_ensures();
            assert forall|k: int| 0 <= k < r@.len() implies is_link(self@, #[trigger] r@[k]@, branch@) by {
                assert(string_views(r@)[k] == r@[k]@);
                assert(string_views(r@).to_multiset().count(r@[k]@) > 0);
                assert(string_views(out@).contains(r@[k]@));
                let j = choose|j: int| 0 <= j < string_views(out@).len() && string_views(out@)[j] == r@[k]@;
                assert(out@[j]@ == r@[k]@);
            }
            assert forall|c: Seq<char>| #[trigger] is_link(self@, c, branch@) implies string_views(r@).contains(c) by {
                let i = choose|i: int| 0 <= i < ls.len() && #[trigger] ls[i] == (c, branch@);
                assert(ls[i].1 == branch@);
                assert(string_views(out@).contains(c));
                assert(string_views(out@).to_multiset().count(c) > 0);
            }
        }
        r
    }

    /// Every branch stacked above `branch`, through the whole tree, sorted
    /// and each once. A parent link aimed in a loop ends the walk, not the
    /// process; `branch` itself is never in the answer.
    pub fn above(&self, branch: &str) -> (r: Vec<String>)
        ensures
            forall|i: int, j: int| 0 <= i < j < r@.len() ==> seq_lt(r@[i]@, r@[j]@),
            forall|n: Seq<char>| string_views(r@).contains(n) <==> (n != branch@ && reaches(self@, branch@, n)),
    {
        let ghost ls = self@;
        let ghost all = ls.map_values(|e: (Seq<char>, Seq<char>)| e.0);
        let mut found: Vec<String> = Vec::new();
        loop
            invariant
                ls == self@,
                all == ls.map_values(|e: (Seq<char>, Seq<char>)| e.0),
                string_views(found@).no_duplicates(),
                forall|k: int| 0 <= k < found@.len() ==> (#[trigger] found@[k])@ != branch@ && reaches(ls, branch@, found@[k]@),
                forall|k: int| 0 <= k < found@.len() ==> all.contains(#[trigger] found@[k]@),
                found@.len() <= ls.len(),
            ensures
                string_views(found@).no_duplicates(),
                forall|k: int| 0 <= k < found@.len() ==> (#[trigger] found@[k])@ != branch@ && reaches(ls, branch@, found@[k]@),
                forall|n: Seq<char>| reaches(ls, branch@, n) && n != branch@ ==> string_views(found@).contains(n),
            decreases ls.len() - found@.len(),
        {
            let mut added = false;
            let ghost start = string_views(found@);
            let ghost start_len = found@.len();
            let mut i: usize = 0;
            while i < self.links.len()
                invariant
                    ls == self@,
                    all == ls.map_values(|e: (Seq<char>, Seq<char>)| e.0),
                    i <= ls.len(),
                    string_views(found@).no_duplicates(),
                    forall|k: int| 0 <= k < found@.len() ==> (#[trigger] found@[k])@ != branch@ && reaches(ls, branch@, found@[k]@),
                    forall|k: int| 0 <= k < found@.len() ==> all.contains(#[trigger] found@[k]@),
                    found@.len() <= ls.len(),
                    start_len == start.len(),
                    !added ==> string_views(found@) == start,
                    added ==> found@.len() > start_len,
                    !added ==> forall|k: int| 0 <= k < i && (ls[k].1 == branch@ || start.contains(ls[k].1)) && ls[k].0 != branch@ ==> start.contains(#[trigger] ls[k].0),
                decreases self.links.len() - i,
            {
                let c = &self.links[i].0;
                let p = &self.links[i].1;
                let from_here = crate::text::str_eq(p.as_str(), branch) || contains_str(&found, p.as_str());
                if from_here && !crate::text::str_eq(c.as_str(), branch) && !contains_str(&found, c.as_str()) {
                    let ghost before = found@;
                    proof {
                        // The new name is stacked above `branch`: one step
                        // from it, or one step above a name already found.
                        assert(ls[i as int] == (c@, p@));
                        assert(is_link(ls, c@, p@));
                        if p@ == branch@ {
                            let path = seq![branch@, c@];
                            assert(path_in(ls, path)) by {
                                assert forall|k: int| 0 <= k < path.len() - 1 implies #[trigger] is_link(ls, path[k + 1], path[k]) by {
                                    assert(k == 0);
                                }
                            }
                            assert(reaches(ls, branch@, c@));
                        } else {
                            let m = choose|m: int| 0 <= m < string_views(found@).len() && string_views(found@)[m] == p@;
                            assert(found@[m]@ == p@);
                            assert(reaches(ls, branch@, p@));
                            let q = choose|q: Seq<Seq<char>>| q.len() >= 2 && q[0] == branch@ && q.last() == p@ && #[trigger] path_in(ls, q);
                            let path = q.push(c@);
                            assert(path_in(ls, path)) by {
                                assert forall|k: int| 0 <= k < path.len() - 1 implies #[trigger] is_link(ls, path[k + 1], path[k]) by {
                                    if k < q.len() - 1 {
                                        assert(path[k] == q[k] && path[k + 1] == q[k + 1]);
                                        assert(is_link(ls, q[k + 1], q[k]));
                                    } else {
                                        assert(path[k] == p@ && path[k + 1] == c@);
                                    }
                                }
                            }
                            assert(path[0] == branch@ && path.last() == c@);
                            assert(reaches(ls, branch@, c@));
                        }
                        assert(all[i as int] == c@);
                    }
                    found.push(c.clone());
                    proof {
                        let sv = string_views(found@);
                        assert(sv =~= string_views(before).push(c@));
                        assert forall|a: int, b: int| 0 <= a < sv.len() && 0 <= b < sv.len() && a != b implies sv[a] != sv[b] by {
                            if a < before.len() && b < before.len() {
                                assert(sv[a] == string_views(before)[a] && sv[b] == string_views(before)[b]);
                            } else if a == before.len() {
                                assert(sv[b] == string_views(before)[b]);
                            } else {
                                assert(sv[a] == string_views(before)[a]);
                            }
                        }
                        assert forall|k: int| 0 <= k < found@.len() implies all.contains(#[trigger] found@[k]@) by {
                            if k < before.len() {
                                assert(found@[k] == before[k]);
                            }
                        }
                        assert forall|k: int| 0 <= k < found@.len() implies all.contains(#[trigger] string_views(found@)[k]) by {
                            assert(string_views(found@)[k] == found@[k]@);
                        }
                        lemma_pigeon(string_views(found@), all);
                    }
                    added = true;
                }
                i += 1;
            }
            if !added {
                proof {
                    assert forall|n: Seq<char>| reaches(ls, branch@, n) && n != branch@ implies string_views(found@).contains(n) by {
                        let q = choose|q: Seq<Seq<char>>| q.len() >= 2 && q[0] == branch@ && q.last() == n && #[trigger] path_in(ls, q);
                        lemma_closed_holds(ls, branch@, start, q, q.len() - 1);
                    }
                }
                break;
            }
        }
        let ghost fv = string_views(found@);
        let r = crate::text::sort_strings(found);
        proof {
            let rv = string_views(r@);
            fv.lemma_multiset_has_no_duplicates();
            assert forall|x: Seq<char>| rv.to_multiset().contains(x) implies rv.to_multiset().count(x) == 1 by {}
            rv.lemma_multiset_has_no_duplicates_conv();
            crate::text::lemma_sorted_distinct(rv);
            assert forall|i: int, j: int| 0 <= i < j < r@.len() implies seq_lt(r@[i]@, r@[j]@) by {
                assert(rv[i] == r@[i]@ && rv[j] == r@[j]@);
            }
            assert forall|n: Seq<char>| rv.contains(n) <==> (n != branch@ && reaches(ls, branch@, n)) by {
                vstd::seq_lib::to_multiset_contains(rv, n);
                vstd::seq_lib::to_multiset_contains(fv, n);
                if fv.contains(n) {
                    let k = choose|k: int| 0 <= k < fv.len() && fv[k] == n;
                    assert(found@[k]@ == n);
                }
            }
        }
        r
    }
}

} // verus!
