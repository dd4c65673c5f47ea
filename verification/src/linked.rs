//! Linked worktrees: which branch each stands on, the branch-keyed state
//! that belongs to another worktree, and the id a new one is filed under.

use vstd::prelude::*;
use crate::error::{Error, Result};
use crate::text::{decimal, string_views, trimmed};

pub mod add;
pub mod path;
pub mod remove;

verus! {

/// The main worktree's chain id. Also the name of a linked worktree created
/// as `git worktree add ../main`, which would share this chain.
pub const MAIN_ID: &'static str = "main";

/// Where a branch's parked state is kept: `refs/fufu/parked/<branch>`.
pub const PARKED_PREFIX: &'static str = "refs/fufu/parked/";

/// One other worktree, and the branch it is standing on.
#[derive(Debug, Clone)]
pub struct Holder {
    /// The worktree's id: the same name its operation chain is keyed by.
    pub id: String,
    /// The branch it holds, short form (`side`, not `refs/heads/side`).
    pub branch: String,
    /// Where it is checked out, for the message git would print.
    pub path: String,
}

/// The branch a full ref name keys state for: a branch itself, or the
/// parked state kept under a branch's name.
pub open spec fn keyed_branch(name: Seq<char>) -> Option<Seq<char>> {
    if "refs/heads/"@.is_prefix_of(name) {
        Some(name.skip("refs/heads/"@.len() as int))
    } else if PARKED_PREFIX@.is_prefix_of(name) {
        Some(name.skip(PARKED_PREFIX@.len() as int))
    } else {
        None
    }
}

/// Whether a ref is branch-keyed state belonging to a branch held by
/// another worktree. `held` is the short names other worktrees hold: git
/// allows a branch in at most one worktree, which is what makes the state
/// keyed by it worktree-exclusive.
pub fn owned_elsewhere(name: &str, held: &Vec<String>) -> (r: bool)
    ensures
        r == match keyed_branch(name@) {
            Some(b) => string_views(held@).contains(b),
            None => false,
        },
{
    let branch = match crate::text::strip_prefix(name, "refs/heads/") {
        Some(short) => short,
        None => match crate::text::strip_prefix(name, PARKED_PREFIX) {
            Some(short) => short,
            None => return false,
        },
    };
    contains(held, branch.as_str())
}

fn contains(v: &Vec<String>, x: &str) -> (r: bool)
    ensures
        r == string_views(v@).contains(x@),
{
    let mut i: usize = 0;
    while i < v.len()
        invariant
            i <= v@.len(),
            forall|k: int| 0 <= k < i ==> v@[k]@ != x@,
        decreases v.len() - i,
    {
        if crate::text::str_eq(v[i].as_str(), x) {
            assert(string_views(v@)[i as int] == x@);
            return true;
        }
        i += 1;
    }
    proof {
        if string_views(v@).contains(x@) {
            let k = choose|k: int| 0 <= k < string_views(v@).len() && string_views(v@)[k] == x@;
            assert(v@[k]@ == x@);
        }
    }
    false
}

/// The branch a worktree's HEAD file names, short form: the contents
/// trimmed, a `ref:` taken off and trimmed again, and `refs/heads/` taken
/// off. `None` when HEAD is detached or names no branch.
pub open spec fn head_branch_spec(contents: Seq<char>) -> Option<Seq<char>> {
    let t = trimmed(contents);
    if "ref:"@.is_prefix_of(t) {
        let target = trimmed(t.skip("ref:"@.len() as int));
        if "refs/heads/"@.is_prefix_of(target) {
            Some(target.skip("refs/heads/"@.len() as int))
        } else {
            None
        }
    } else {
        None
    }
}

/// The branch a worktree's HEAD file names, short form.
pub fn head_branch_of(contents: &str) -> (r: Option<String>)
    ensures
        crate::text::opt_view(r) == head_branch_spec(contents@),
{
    let t = crate::text::string_of(&crate::text::trim_chars(&crate::text::chars_of(contents)));
    match crate::text::strip_prefix(t.as_str(), "ref:") {
        Some(rest) => {
            let target = crate::text::string_of(&crate::text::trim_chars(&crate::text::chars_of(rest.as_str())));
            crate::text::strip_prefix(target.as_str(), "refs/heads/")
        },
        None => None,
    }
}

/// The id a new worktree is filed under: the destination's file name, or,
/// when that name is `main` or already filed, the name with the smallest
/// decimal suffix from 1 that is free.
pub open spec fn picked_id(base: Seq<char>, taken: Seq<Seq<char>>, id: Seq<char>) -> bool {
    if base != MAIN_ID@ && !taken.contains(base) {
        id == base
    } else {
        exists|n: nat| {
            &&& n >= 1
            &&& id == base + decimal(n)
            &&& !taken.contains(id)
            &&& forall|m: nat| 1 <= m < n ==> taken.contains(#[trigger] (base + decimal(m)))
        }
    }
}

/// Pick a new worktree's id. `file_name` is the destination's last
/// component (none when it has none, which refuses), `shown` is the
/// destination as a message prints it, and `taken` the ids already filed.
pub fn pick_id(file_name: Option<String>, shown: &str, taken: &Vec<String>) -> (r: Result<String>)
    requires
        taken@.len() < u64::MAX,
    ensures
        file_name is None ==> (r matches Err(Error::Coded { id, message, exits }) && id@ == "worktree/exists"@
            && message@ == shown@ + " is not a directory fufu can name"@ && exits@.len() == 0),
        file_name matches Some(b) ==> (r matches Ok(id) && picked_id(b@, string_views(taken@), id@)),
{
    let base = match file_name {
        Some(b) => b,
        None => {
            let m = crate::text::concat(shown, " is not a directory fufu can name");
            return Err(Error::coded("worktree/exists", m.as_str(), Vec::new()));
        },
    };
    let ghost tv = string_views(taken@);
    if !crate::text::str_eq(base.as_str(), MAIN_ID) && !contains(taken, base.as_str()) {
        return Ok(base);
    }
    let mut n: u64 = 1;
    let mut candidate = crate::text::concat(base.as_str(), crate::text::decimal_string(n).as_str());
    // Every candidate before `n` is filed, and they are all different, so
    // there are no more of them than filed ids: the search ends.
    let ghost mut tried: Seq<Seq<char>> = Seq::empty();
    while contains(taken, candidate.as_str())
        invariant
            tv == string_views(taken@),
            taken@.len() < u64::MAX,
            1 <= n,
            n <= taken@.len() + 1,
            candidate@ == base@ + decimal(n as nat),
            tried.len() == n - 1,
            forall|m: nat| 1 <= m < n ==> tried[m - 1] == base@ + decimal(m),
            forall|m: nat| 1 <= m < n ==> tv.contains(#[trigger] (base@ + decimal(m))),
        decreases taken@.len() + 1 - n,
    {
        proof {
            let next = tried.push(candidate@);
            assert forall|a: int, b: int| 0 <= a < next.len() && 0 <= b < next.len() && a != b implies next[a] != next[b] by {
                let (ma, mb) = ((a + 1) as nat, (b + 1) as nat);
                assert(next[a] == base@ + decimal(ma));
                assert(next[b] == base@ + decimal(mb));
                if next[a] == next[b] {
                    assert((base@ + decimal(ma)).skip(base@.len() as int) =~= decimal(ma));
                    assert((base@ + decimal(mb)).skip(base@.len() as int) =~= decimal(mb));
                    crate::text::lemma_decimal_injective(ma, mb);
                }
            }
            assert forall|k: int| 0 <= k < next.len() implies tv.contains(#[trigger] next[k]) by {
                let m = (k + 1) as nat;
                assert(next[k] == base@ + decimal(m));
            }
            crate::cascade::lemma_no_longer(next, tv);
            tried = next;
        }
        n += 1;
        candidate = crate::text::concat(base.as_str(), crate::text::decimal_string(n).as_str());
    }
    Ok(candidate)
}

/// Every live worktree's id, this one included, whatever its HEAD is
/// doing: `main` and each linked worktree git lists, sorted, each once.
pub fn live_ids(listed: Vec<String>) -> (r: Vec<String>)
    ensures
        forall|i: int, j: int| 0 <= i < j < r@.len() ==> crate::text::seq_lt(r@[i]@, r@[j]@),
        forall|n: Seq<char>| string_views(r@).contains(n) <==> (n == MAIN_ID@ || string_views(listed@).contains(n)),
{
    let mut all: Vec<String> = Vec::new();
    all.push(crate::text::owned(MAIN_ID));
    let mut rest = listed;
    let ghost listed_views = string_views(rest@);
    all.append(&mut rest);
    let ghost all_views = string_views(all@);
    proof {
        assert(all_views =~= seq![MAIN_ID@] + listed_views);
    }
    let r = crate::text::sorted_unique(all);
    proof {
        assert forall|n: Seq<char>| string_views(r@).contains(n) <==> (n == MAIN_ID@ || string_views(listed@).contains(n)) by {
            lemma_contains_front(MAIN_ID@, listed_views, n);
        }
    }
    r
}

proof fn lemma_contains_front(a: Seq<char>, s: Seq<Seq<char>>, n: Seq<char>)
    ensures
        (seq![a] + s).contains(n) <==> (n == a || s.contains(n)),
{
    let t = seq![a] + s;
    if s.contains(n) {
        let k = choose|k: int| 0 <= k < s.len() && s[k] == n;
        assert(t[k + 1] == n);
    }
    if t.contains(n) {
        let k = choose|k: int| 0 <= k < t.len() && t[k] == n;
        if k > 0 {
            assert(s[k - 1] == n);
        }
    }
    if n == a {
        assert(t[0] == n);
    }
}

/// Whether a chain is nobody's: its worktree is not among `live`.
pub open spec fn is_orphan(live: Seq<Seq<char>>) -> spec_fn(Seq<char>) -> bool {
    |c: Seq<char>| !live.contains(c)
}

/// The operation chains nobody stands in: every chain whose worktree is
/// not among `live`, sorted.
pub fn orphans(chains: Vec<String>, live: &Vec<String>) -> (r: Vec<String>)
    ensures
        crate::text::strings_sorted(string_views(r@)),
        string_views(r@).to_multiset() == string_views(chains@).filter(is_orphan(string_views(live@))).to_multiset(),
{
    let ghost views = string_views(chains@);
    let ghost keep = is_orphan(string_views(live@));
    let mut out: Vec<String> = Vec::new();
    let mut rest = chains;
    let mut i: usize = 0;
    let n = rest.len();
    while rest.len() > 0
        invariant
            i + rest@.len() == n,
            n == views.len(),
            string_views(rest@) == views.skip(i as int),
            string_views(out@) == views.take(i as int).filter(keep),
            keep == is_orphan(string_views(live@)),
        decreases rest@.len(),
    {
        let ghost r0 = rest@;
        let c = rest.remove(0);
        proof {
            assert(string_views(r0)[0] == views.skip(i as int)[0]);
            assert(c@ == views[i as int]);
            assert(string_views(rest@) =~= string_views(r0).skip(1));
            assert(string_views(rest@) =~= views.skip(i + 1));
            assert(views.take(i + 1).drop_last() =~= views.take(i as int));
            assert(views.take(i + 1).last() == views[i as int]);
            reveal(Seq::filter);
            assert(views.take(i + 1).filter(keep) == if keep(views[i as int]) {
                views.take(i as int).filter(keep).push(views[i as int])
            } else {
                views.take(i as int).filter(keep)
            });
            assert(keep(views[i as int]) == !string_views(live@).contains(c@));
        }
        if !contains(live, c.as_str()) {
            out.push(c);
            proof {
                assert(string_views(out@) =~= views.take(i as int).filter(keep).push(views[i as int]));
            }
        }
        i += 1;
    }
    proof {
        assert(views.take(n as int) =~= views);
    }
    crate::text::sort_strings(out)
}

} // verus!
