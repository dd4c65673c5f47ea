//! Branch names: the anonymous ones fufu mints, their full refs, and the
//! check a proposed name goes through.

use vstd::prelude::*;
use crate::error::{Error, Result};
use crate::journal::RefTransition;

verus! {

/// The prefix of the branches fufu names itself.
pub const ANON_PREFIX: &'static str = "ff/";

/// Whether a branch is one fufu named itself.
pub fn is_anonymous(branch: &str) -> (r: bool)
    ensures
        r == ANON_PREFIX@.is_prefix_of(branch@),
{
    crate::text::str_starts_with(branch, ANON_PREFIX)
}

/// A branch's full ref name.
pub fn heads_ref(branch: &str) -> (r: String)
    ensures
        r@ == "refs/heads/"@ + branch@,
{
    crate::text::concat("refs/heads/", branch)
}

/// What gix's ref-name validation says of a full ref name: nothing when it
/// is valid, the error's text when it is not.
pub uninterp spec fn gix_ref_name_error(full: Seq<char>) -> Option<Seq<char>>;

/// The full-name check: `gix::refs::FullName::try_from(&str)`, which runs
/// gix's validation of a complete reference name. Its verdict and its
/// error's text are a function of the name alone.
#[verifier::external_body]
fn check_full_name(full: &str) -> (r: Option<String>)
    ensures
        crate::text::opt_view(r) == gix_ref_name_error(full@),
{
    match gix::refs::FullName::try_from(full) {
        Ok(_) => None,
        Err(err) => Some(err.to_string()),
    }
}

/// Validate a proposed branch name by round-tripping it through gix's ref
/// name validation: `refs/heads/<branch>` must be a valid full name.
pub fn validate_name(branch: &str) -> (r: Result<()>)
    ensures
        gix_ref_name_error("refs/heads/"@ + branch@) is None ==> r is Ok,
        gix_ref_name_error("refs/heads/"@ + branch@) matches Some(t) ==> (r matches Err(Error::Coded { id, message, exits })
            && id@ == "branch/invalid-name"@
            && message@ == "invalid branch name "@ + crate::text::debug_quoted(branch@) + ": "@ + t
            && exits@.len() == 0),
{
    let full = heads_ref(branch);
    match check_full_name(full.as_str()) {
        None => Ok(()),
        Some(err) => {
            let q = crate::text::quoted(branch);
            let a = crate::text::concat("invalid branch name ", q.as_str());
            let b = crate::text::concat(a.as_str(), ": ");
            let m = crate::text::concat(b.as_str(), err.as_str());
            Err(Error::coded("branch/invalid-name", m.as_str(), Vec::new()))
        },
    }
}

/// The refusal for a branch another worktree stands on: git guards this on
/// rename and delete and on opening a branch, and fufu carries its own.
pub fn checked_out_elsewhere(branch: &str, path: &str) -> (e: Error)
    ensures
        e matches Error::Coded { id, message, exits } && id@ == "branch/checked-out-elsewhere"@
            && message@ == "'"@ + branch@ + "' is already used by worktree at '"@ + path@ + "'"@
            && exits@.len() == 0,
{
    let a = crate::text::concat("'", branch);
    let b = crate::text::concat(a.as_str(), "' is already used by worktree at '");
    let c = crate::text::concat(b.as_str(), path);
    let m = crate::text::concat(c.as_str(), "'");
    Error::coded("branch/checked-out-elsewhere", m.as_str(), Vec::new())
}

/// What a rename did: the ref transitions, and HEAD's retarget when it
/// stood on the renamed branch.
#[derive(Debug)]
pub struct RenameEffects {
    pub transitions: Vec<RefTransition>,
    /// HEAD symref retargeted from old to new.
    pub head_moved: Option<(String, String)>,
}

impl Default for RenameEffects {
    fn default() -> (r: RenameEffects)
        ensures
            r.transitions@.len() == 0,
            r.head_moved is None,
    {
        RenameEffects { transitions: Vec::new(), head_moved: None }
    }
}


/// The refusal when a name is already a branch.
pub fn exists_refusal(name: &str) -> (e: Error)
    ensures
        crate::fold::refusal(e, "branch/exists"@, "a branch named "@ + name@ + " already exists"@, seq!["ff branch list"@]),
{
    let m = crate::text::concat("a branch named ", name);
    let m = crate::text::concat(m.as_str(), " already exists");
    let mut v: Vec<String> = Vec::new();
    v.push(crate::text::owned("ff branch list"));
    proof {
        assert(crate::text::string_views(v@) =~= seq!["ff branch list"@]);
    }
    Error::coded("branch/exists", m.as_str(), v)
}

/// The refusal when a name is no branch.
pub fn not_found(name: &str) -> (e: Error)
    ensures
        crate::fold::refusal(e, "branch/not-found"@, "no branch named "@ + name@, Seq::empty()),
{
    let m = crate::text::concat("no branch named ", name);
    let v: Vec<String> = Vec::new();
    proof {
        assert(crate::text::string_views(v@) =~= Seq::<Seq<char>>::empty());
    }
    Error::coded("branch/not-found", m.as_str(), v)
}

/// Whether HEAD stands on `old_ref`, born or not: a rename then moves HEAD
/// too.
pub fn head_on(head: &crate::model::HeadState, full: &str) -> (r: bool)
    ensures
        r == match *head {
            crate::model::HeadState::Branch { ref_name, .. } => ref_name@ == full@,
            crate::model::HeadState::Unborn { ref_name } => ref_name@ == full@,
            crate::model::HeadState::Detached { .. } => false,
        },
{
    match head {
        crate::model::HeadState::Branch { ref_name, .. } => crate::text::str_eq(ref_name.as_str(), full),
        crate::model::HeadState::Unborn { ref_name } => crate::text::str_eq(ref_name.as_str(), full),
        crate::model::HeadState::Detached { .. } => false,
    }
}

/// The branch a rename of the current branch starts from: HEAD's, with its
/// tip. Not standing on a branch, there is none to name.
pub fn current_to_name(head: &crate::model::HeadState) -> (r: Result<(String, String)>)
    ensures
        match *head {
            crate::model::HeadState::Branch { name, commit, .. } => r == Ok::<(String, String), Error>((name, commit)),
            _ => r matches Err(e) && crate::fold::refusal(
                e,
                "repo/detached"@,
                "not on a branch: there is no branch to name"@,
                seq!["ff switch <branch>"@],
            ),
        },
{
    match head {
        crate::model::HeadState::Branch { name, commit, .. } => Ok((name.clone(), commit.clone())),
        _ => {
            let mut v: Vec<String> = Vec::new();
            v.push(crate::text::owned("ff switch <branch>"));
            proof {
                assert(crate::text::string_views(v@) =~= seq!["ff switch <branch>"@]);
            }
            Err(Error::coded("repo/detached", "not on a branch: there is no branch to name", v))
        },
    }
}

/// The summary of naming the current branch: claiming a name fufu minted,
/// or renaming a proper one.
pub fn naming_summary(current: &str, new: &str) -> (r: String)
    ensures
        r@ == if ANON_PREFIX@.is_prefix_of(current@) {
            "claim "@ + current@ + " as "@ + new@
        } else {
            "rename "@ + current@ + " to "@ + new@
        },
{
    if is_anonymous(current) {
        let a = crate::text::concat("claim ", current);
        let b = crate::text::concat(a.as_str(), " as ");
        crate::text::concat(b.as_str(), new)
    } else {
        let a = crate::text::concat("rename ", current);
        let b = crate::text::concat(a.as_str(), " to ");
        crate::text::concat(b.as_str(), new)
    }
}

/// A ref's creation at `tip`.
pub open spec fn created(t: RefTransition, name: Seq<char>, tip: Seq<char>) -> bool {
    t.name@ == name && t.old is None && (t.new matches Some(n) && n@ == tip)
}

/// A ref's deletion from `tip`.
pub open spec fn deleted(t: RefTransition, name: Seq<char>, tip: Seq<char>) -> bool {
    t.name@ == name && (t.old matches Some(o) && o@ == tip) && t.new is None
}

/// What naming the current branch records and plans: the new ref created
/// at the tip and the old one deleted, and the parked change, when there is
/// one, carried across the same way; HEAD on the new name.
pub fn naming_moves(
    table: &mut crate::journal::RefsTable,
    current: &str,
    new: &str,
    tip: &crate::oid::Oid,
    parked: Option<crate::oid::Oid>,
) -> (r: Vec<RefTransition>)
    requires
        old(table).wf(),
    ensures
        final(table).wf(),
        final(table).head@ == "ref:"@ + ("refs/heads/"@ + new@),
        final(table).map() == {
            let m = old(table).map().remove("refs/heads/"@ + current@).insert(
                "refs/heads/"@ + new@,
                crate::hex::hex_of(tip@),
            );
            match parked {
                Some(p) => m.remove(crate::linked::PARKED_PREFIX@ + current@).insert(
                    crate::linked::PARKED_PREFIX@ + new@,
                    crate::hex::hex_of(p@),
                ),
                None => m,
            }
        },
        r@.len() == if parked is Some { 4int } else { 2int },
        created(r@[0], "refs/heads/"@ + new@, crate::hex::hex_of(tip@)),
        deleted(r@[1], "refs/heads/"@ + current@, crate::hex::hex_of(tip@)),
        parked matches Some(p) ==> created(r@[2], crate::linked::PARKED_PREFIX@ + new@, crate::hex::hex_of(p@))
            && deleted(r@[3], crate::linked::PARKED_PREFIX@ + current@, crate::hex::hex_of(p@)),
{
    let old_ref = heads_ref(current);
    let new_ref = heads_ref(new);
    let hex = tip.to_hex();
    table.remove(old_ref.as_str());
    table.insert(new_ref.as_str(), hex.as_str());
    table.head = crate::text::concat("ref:", new_ref.as_str());
    let mut r: Vec<RefTransition> = Vec::new();
    r.push(RefTransition { name: new_ref, old: None, new: Some(tip.to_hex()) });
    r.push(RefTransition { name: old_ref, old: Some(hex), new: None });
    match parked {
        Some(p) => {
            let po = crate::text::concat(crate::linked::PARKED_PREFIX, current);
            let pn = crate::text::concat(crate::linked::PARKED_PREFIX, new);
            let ph = p.to_hex();
            table.remove(po.as_str());
            table.insert(pn.as_str(), ph.as_str());
            r.push(RefTransition { name: pn, old: None, new: Some(p.to_hex()) });
            r.push(RefTransition { name: po, old: Some(ph), new: None });
        },
        None => {},
    }
    r
}

/// The refusal to delete the branch HEAD stands on.
pub fn current_refusal(name: &str, current: &str) -> (r: Option<Error>)
    ensures
        r is Some <==> name@ == current@,
        r matches Some(e) ==> crate::fold::refusal(
            e,
            "branch/is-current"@,
            name@ + " is the current branch; switch away before deleting it"@,
            seq!["ff switch <branch>"@],
        ),
{
    if crate::text::str_eq(name, current) {
        let m = crate::text::concat(name, " is the current branch; switch away before deleting it");
        let mut v: Vec<String> = Vec::new();
        v.push(crate::text::owned("ff switch <branch>"));
        proof {
            assert(crate::text::string_views(v@) =~= seq!["ff switch <branch>"@]);
        }
        Some(Error::coded("branch/is-current", m.as_str(), v))
    } else {
        None
    }
}

/// What deleting a branch records and plans: the branch's ref deleted from
/// its tip, and its parked change, when it has one, with it.
pub fn deletion_moves(
    table: &mut crate::journal::RefsTable,
    name: &str,
    tip: &crate::oid::Oid,
    parked: Option<crate::oid::Oid>,
) -> (r: Vec<RefTransition>)
    requires
        old(table).wf(),
    ensures
        final(table).wf(),
        final(table).head == old(table).head,
        final(table).map() == {
            let m = old(table).map().remove("refs/heads/"@ + name@);
            if parked is Some { m.remove(crate::linked::PARKED_PREFIX@ + name@) } else { m }
        },
        r@.len() == if parked is Some { 2int } else { 1int },
        deleted(r@[0], "refs/heads/"@ + name@, crate::hex::hex_of(tip@)),
        parked matches Some(p) ==> deleted(r@[1], crate::linked::PARKED_PREFIX@ + name@, crate::hex::hex_of(p@)),
{
    let full = heads_ref(name);
    table.remove(full.as_str());
    let mut r: Vec<RefTransition> = Vec::new();
    r.push(RefTransition { name: full, old: Some(tip.to_hex()), new: None });
    match parked {
        Some(p) => {
            let pr = crate::text::concat(crate::linked::PARKED_PREFIX, name);
            table.remove(pr.as_str());
            r.push(RefTransition { name: pr, old: Some(p.to_hex()), new: None });
        },
        None => {},
    }
    r
}

/// The summary of deleting a branch.
pub fn deletion_summary(name: &str) -> (r: String)
    ensures
        r@ == "delete branch "@ + name@,
{
    crate::text::concat("delete branch ", name)
}

/// The listing's buckets: the named branches, and apart from them the ones
/// fufu named itself, each in the order given.
pub fn buckets(rows: Vec<crate::model::BranchInfo>) -> (r: crate::model::BranchList)
    ensures
        r.named@ == rows@.filter(|b: crate::model::BranchInfo| !b.anonymous),
        r.anonymous@ == rows@.filter(|b: crate::model::BranchInfo| b.anonymous),
{
    let ghost r0 = rows@;
    let count: usize = rows.len();
    let mut rest = rows;
    let mut named: Vec<crate::model::BranchInfo> = Vec::new();
    let mut anonymous: Vec<crate::model::BranchInfo> = Vec::new();
    let mut k: usize = 0;
    while rest.len() > 0
        invariant
            k <= r0.len(),
            r0.len() == count,
            rest@ == r0.skip(k as int),
            named@ == r0.take(k as int).filter(|b: crate::model::BranchInfo| !b.anonymous),
            anonymous@ == r0.take(k as int).filter(|b: crate::model::BranchInfo| b.anonymous),
        decreases rest.len(),
    {
        proof {
            assert(k < r0.len());
            assert(r0.skip(k as int)[0] == r0[k as int]);
            assert(r0.take(k + 1) =~= r0.take(k as int).push(r0[k as int]));
            r0.take(k as int).lemma_filter_push(r0[k as int], |b: crate::model::BranchInfo| !b.anonymous);
            r0.take(k as int).lemma_filter_push(r0[k as int], |b: crate::model::BranchInfo| b.anonymous);
        }
        let row = rest.remove(0);
        proof {
            assert(rest@ =~= r0.skip(k + 1));
        }
        if row.anonymous {
            anonymous.push(row);
        } else {
            named.push(row);
        }
        k += 1;
    }
    proof {
        assert(r0.take(r0.len() as int) =~= r0);
    }
    crate::model::BranchList { named, anonymous }
}

/// A branch a remote holds, as the listing shows it.
#[derive(Debug, Clone)]
pub struct RemoteBranch {
    /// The tracking ref's short name, `origin/feature`.
    pub name: String,
    pub remote: String,
    pub tip: String,
    pub subject: Option<String>,
    /// The tip's committer time; 0 when it cannot be read.
    pub tip_time: i64,
}

/// `a` is listed before `b`: the newer tip, or at one time the smaller
/// name.
pub open spec fn remote_before(a: RemoteBranch, b: RemoteBranch) -> bool {
    a.tip_time > b.tip_time || (a.tip_time == b.tip_time && crate::text::seq_lt(a.name@, b.name@))
}

/// Newest tip first, equal times by name.
pub open spec fn remotes_sorted(s: Seq<RemoteBranch>) -> bool {
    forall|i: int, j: int| 0 <= i < j < s.len() ==> !remote_before(#[trigger] s[j], #[trigger] s[i])
}

/// The remote branches no local branch tracks, each as often as listed.
pub open spec fn untracked(remotes: Seq<RemoteBranch>, tracking: Seq<Seq<char>>) -> Seq<RemoteBranch> {
    remotes.filter(|r: RemoteBranch| !tracking.contains(r.name@))
}

proof fn lemma_remote_before_asymmetric(a: RemoteBranch, b: RemoteBranch)
    ensures
        !(remote_before(a, b) && remote_before(b, a)),
{
    crate::text::lemma_seq_lt_total(a.name@, b.name@);
}

proof fn lemma_remote_not_before_transitive(x: RemoteBranch, y: RemoteBranch, z: RemoteBranch)
    requires
        !remote_before(x, y),
        !remote_before(y, z),
    ensures
        !remote_before(x, z),
{
    crate::text::lemma_seq_lt_total(x.name@, y.name@);
    crate::text::lemma_seq_lt_total(y.name@, z.name@);
    crate::text::lemma_seq_lt_total(x.name@, z.name@);
    if x.tip_time == z.tip_time && y.tip_time == z.tip_time && crate::text::seq_lt(x.name@, z.name@) {
        if crate::text::seq_lt(z.name@, y.name@) {
            crate::text::lemma_seq_lt_transitive(x.name@, z.name@, y.name@);
        } else if y.name@ != z.name@ {
            crate::text::lemma_seq_lt_transitive(y.name@, x.name@, z.name@);
        }
    }
}

fn remote_before_of(a: &RemoteBranch, b: &RemoteBranch) -> (r: bool)
    ensures
        r == remote_before(*a, *b),
{
    if a.tip_time != b.tip_time {
        return a.tip_time > b.tip_time;
    }
    crate::text::chars_lt(&crate::text::chars_of(a.name.as_str()), &crate::text::chars_of(b.name.as_str()))
}

/// Whether `name` is among `tracking`.
fn names_any(tracking: &Vec<String>, name: &str) -> (r: bool)
    ensures
        r == crate::text::string_views(tracking@).contains(name@),
{
    let mut i: usize = 0;
    while i < tracking.len()
        invariant
            i <= tracking@.len(),
            forall|k: int| 0 <= k < i ==> tracking@[k]@ != name@,
        decreases tracking.len() - i,
    {
        if crate::text::str_eq(tracking[i].as_str(), name) {
            assert(crate::text::string_views(tracking@)[i as int] == name@);
            return true;
        }
        i += 1;
    }
    assert forall|k: int| 0 <= k < crate::text::string_views(tracking@).len() implies crate::text::string_views(tracking@)[k] != name@ by {
        assert(tracking@[k]@ != name@);
    }
    false
}

/// The listing's third bucket: what a remote holds that no local branch
/// tracks, newest tip first and equal times by name, cut to `limit`; and
/// how many were cut.
pub fn remote_only(remotes: Vec<RemoteBranch>, tracking: &Vec<String>, limit: Option<usize>) -> (r: (Vec<RemoteBranch>, usize))
    ensures
        ({
            let all = untracked(remotes@, crate::text::string_views(tracking@));
            let kept: int = match limit {
                Some(n) => if n < all.len() { n as int } else { all.len() as int },
                None => all.len() as int,
            };
            &&& r.0@.len() == kept
            &&& r.1 == all.len() - kept
            &&& remotes_sorted(r.0@)
            &&& exists|s: Seq<RemoteBranch>| #![auto]
                remotes_sorted(s) && s.to_multiset() == all.to_multiset() && r.0@ == s.take(kept)
        }),
{
    let ghost views = remotes@;
    let ghost keep = |r: RemoteBranch| !crate::text::string_views(tracking@).contains(r.name@);
    let ghost all = untracked(remotes@, crate::text::string_views(tracking@));
    let mut v: Vec<RemoteBranch> = Vec::new();
    let mut rest = remotes;
    let n = rest.len();
    let mut i: usize = 0;
    while rest.len() > 0
        invariant
            i + rest@.len() == n,
            n == views.len(),
            rest@ == views.skip(i as int),
            v@ == views.take(i as int).filter(keep),
            keep == (|r: RemoteBranch| !crate::text::string_views(tracking@).contains(r.name@)),
        decreases rest@.len(),
    {
        let ghost r0 = rest@;
        let c = rest.remove(0);
        proof {
            assert(r0[0] == views.skip(i as int)[0]);
            assert(rest@ =~= views.skip(i + 1));
            assert(views.take(i + 1).drop_last() =~= views.take(i as int));
            assert(views.take(i + 1).last() == views[i as int]);
            reveal(Seq::filter);
        }
        if !names_any(tracking, c.name.as_str()) {
            v.push(c);
        }
        i += 1;
    }
    proof {
        assert(views.take(n as int) =~= views);
        assert(v@ == all);
    }
    // Newest first by insertion, moving each entry up past those it goes
    // before.
    let m = v.len();
    let ghost orig = v@;
    if m > 1 {
        let mut k: usize = 1;
        while k < m
            invariant
                1 <= k <= m,
                m == v@.len(),
                v@.to_multiset() == orig.to_multiset(),
                forall|a: int, b: int| 0 <= a < b < k ==> !remote_before(#[trigger] v@[b], #[trigger] v@[a]),
            decreases m - k,
        {
            let mut j: usize = k;
            while j > 0 && remote_before_of(&v[j], &v[j - 1])
                invariant
                    0 <= j <= k < m,
                    m == v@.len(),
                    v@.to_multiset() == orig.to_multiset(),
                    forall|a: int, b: int|
                        0 <= a < b <= k && a != j && b != j ==> !remote_before(#[trigger] v@[b], #[trigger] v@[a]),
                    forall|b: int| j < b <= k ==> remote_before(v@[j as int], #[trigger] v@[b]),
                decreases j,
            {
                let ghost w = v@;
                let x = v.remove(j - 1);
                v.insert(j, x);
                proof {
                    assert(v@ =~= w.update(j - 1, w[j as int]).update(j as int, w[j - 1]));
                    crate::evolog::order::lemma_adjacent_swap_multiset(w, j as int);
                    assert forall|a: int, b: int|
                        0 <= a < b <= k && a != j - 1 && b != j - 1 implies !remote_before(
                        #[trigger] v@[b],
                        #[trigger] v@[a],
                    ) by {
                        let pa = if a == j { j - 1 } else { a };
                        let pb = if b == j { j - 1 } else { b };
                        assert(v@[a] == w[pa] && v@[b] == w[pb]);
                    }
                }
                j -= 1;
            }
            proof {
                assert forall|a: int, b: int| 0 <= a < b < k + 1 implies !remote_before(#[trigger] v@[b], #[trigger] v@[a]) by {
                    if b == j {
                        if a < j - 1 {
                            assert(!remote_before(v@[j - 1], v@[a]));
                            lemma_remote_not_before_transitive(v@[j as int], v@[j - 1], v@[a]);
                        }
                    } else if a == j {
                        lemma_remote_before_asymmetric(v@[a], v@[b]);
                    }
                }
            }
            k += 1;
        }
    }
    let ghost sorted_v = v@;
    proof {
        assert(remotes_sorted(sorted_v));
        assert(sorted_v.to_multiset() == all.to_multiset());
    }
    let total = v.len();
    let kept = match limit {
        Some(n) => if n < total { n } else { total },
        None => total,
    };
    v.truncate(kept);
    proof {
        assert(v@ =~= sorted_v.take(kept as int));
        assert forall|a: int, b: int| 0 <= a < b < v@.len() implies !remote_before(#[trigger] v@[b], #[trigger] v@[a]) by {
            assert(v@[a] == sorted_v[a] && v@[b] == sorted_v[b]);
        }
        assert(remotes_sorted(sorted_v) && sorted_v.to_multiset() == all.to_multiset() && v@ == sorted_v.take(kept as int));
    }
    (v, total - kept)
}

} // verus!
