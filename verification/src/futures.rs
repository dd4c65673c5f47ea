//! Futures: what an operation would cost, answered before you spend it. A
//! rebase is a replay, so fufu simulates one and reports where it would
//! land. This module holds the verdicts and the decisions around a probe;
//! the replay itself runs where the repository is.

use vstd::prelude::*;
use crate::text::str_eq;

verus! {

/// How many commits a replay will simulate before giving up honestly.
pub const DEFAULT_FUTURES_DEPTH: usize = 200;

/// What a rebase onto the base would do, right now.
#[derive(Debug, Clone)]
pub enum Verdict {
    /// The base is already an ancestor: nothing to replay.
    UpToDate { ahead: usize },
    /// The branch is an ancestor of the base: no replay, just a pointer move.
    FastForward { behind: usize },
    /// Every commit replays without conflict.
    Clean { replayed: usize },
    /// The replay stops here.
    Conflict { at: At, paths: Vec<String> },
    /// Honest silence — a wrong verdict is worse than none.
    Unknown { reason: UnknownReason },
}

/// Where a conflict lands.
#[derive(Debug, Clone)]
pub enum At {
    Commit { id: String, subject: String },
    OpenChange,
}

/// Why fufu declined to answer. The set is closed, so the wording lives in
/// one place.
#[derive(Debug, Clone, Copy, PartialEq, Eq)]
pub enum UnknownReason {
    UnrelatedHistories,
    MergeCommits,
    TooManyCommits,
}

impl UnknownReason {
    /// The phrase the human line prints inside "can't simulate (…)".
    pub open spec fn text_spec(self) -> Seq<char> {
        match self {
            UnknownReason::UnrelatedHistories => "unrelated histories"@,
            UnknownReason::MergeCommits => "merge commits in the range"@,
            UnknownReason::TooManyCommits => "too many commits"@,
        }
    }

    /// The phrase the human line prints inside "can't simulate (…)".
    pub fn text(self) -> (r: &'static str)
        ensures
            r@ == self.text_spec(),
    {
        match self {
            UnknownReason::UnrelatedHistories => "unrelated histories",
            UnknownReason::MergeCommits => "merge commits in the range",
            UnknownReason::TooManyCommits => "too many commits",
        }
    }
}

/// Which branch a future is measured against, and how fufu picked it.
#[derive(Debug, Clone)]
pub struct BaseRef {
    /// Short name as a person would say it: `main`, `origin/main`.
    pub name: String,
    pub ref_name: String,
    pub tip: String,
    pub kind: BaseKind,
}

#[derive(Debug, Clone, Copy, PartialEq, Eq)]
pub enum BaseKind {
    Parent,
    Trunk,
    Upstream,
}

#[derive(Debug, Clone)]
pub struct Future {
    pub base: BaseRef,
    pub verdict: Verdict,
}

/// The answer a probe gives before any replay, from the merge bases of the
/// branch tip and the base: none is unrelated histories; the base among them
/// is up to date (checked first, so equal tips are up to date rather than a
/// fast-forward of nothing); the tip among them is a fast-forward. The
/// counts are the commits each side holds that the bases do not.
pub open spec fn shortcut_spec(bases_empty: bool, has_onto: bool, has_tip: bool, ahead: usize, behind: usize) -> Option<Verdict> {
    if bases_empty {
        Some(Verdict::Unknown { reason: UnknownReason::UnrelatedHistories })
    } else if has_onto {
        Some(Verdict::UpToDate { ahead })
    } else if has_tip {
        Some(Verdict::FastForward { behind })
    } else {
        None
    }
}

/// What the probe answers before replaying, by what the merge bases hold.
/// With no base the histories are unrelated. Whenever the bases hold the
/// base's tip the branch is up to date with its own commits ahead, equal
/// tips included, where the bases hold the branch tip too: never a
/// fast-forward of nothing. A fast-forward needs the branch tip among the
/// bases and the base's tip not; with neither the probe goes on to replay.
pub proof fn lemma_shortcut_answers(bases_empty: bool, has_onto: bool, has_tip: bool, ahead: usize, behind: usize)
    ensures
        bases_empty <==> shortcut_spec(bases_empty, has_onto, has_tip, ahead, behind)
            == Some(Verdict::Unknown { reason: UnknownReason::UnrelatedHistories }),
        !bases_empty && has_onto ==> shortcut_spec(bases_empty, has_onto, has_tip, ahead, behind)
            == Some(Verdict::UpToDate { ahead }),
        (shortcut_spec(bases_empty, has_onto, has_tip, ahead, behind) is Some
            && shortcut_spec(bases_empty, has_onto, has_tip, ahead, behind)->0 is FastForward)
            <==> (!bases_empty && !has_onto && has_tip),
        !bases_empty && !has_onto && has_tip ==> shortcut_spec(bases_empty, has_onto, has_tip, ahead, behind)
            == Some(Verdict::FastForward { behind }),
        shortcut_spec(bases_empty, has_onto, has_tip, ahead, behind) is None <==> (!bases_empty && !has_onto && !has_tip),
        shortcut_spec(bases_empty, true, true, ahead, behind) == shortcut_spec(bases_empty, true, false, ahead, behind),
{
}

/// The verdict a probe reaches without replaying, when it reaches one.
pub fn shortcut(bases_empty: bool, has_onto: bool, has_tip: bool, ahead: usize, behind: usize) -> (r: Option<Verdict>)
    ensures
        r == shortcut_spec(bases_empty, has_onto, has_tip, ahead, behind),
        bases_empty ==> r == Some(Verdict::Unknown { reason: UnknownReason::UnrelatedHistories }),
        !bases_empty && has_onto ==> r == Some(Verdict::UpToDate { ahead }),
        !bases_empty && !has_onto && has_tip ==> r == Some(Verdict::FastForward { behind }),
        !bases_empty && !has_onto && !has_tip ==> r is None,
{
    if bases_empty {
        Some(Verdict::Unknown { reason: UnknownReason::UnrelatedHistories })
    } else if has_onto {
        Some(Verdict::UpToDate { ahead })
    } else if has_tip {
        Some(Verdict::FastForward { behind })
    } else {
        None
    }
}

/// The range walk's refusals: a merge commit anywhere in it, or more
/// commits than the depth allows. `parents` holds each walked commit's
/// parent count, newest first; the walk stops at the first refusal.
pub open spec fn range_refusal_spec(parents: Seq<usize>, depth: usize) -> Option<UnknownReason>
    decreases parents.len(),
{
    range_refusal_from(parents, depth, 0)
}

pub open spec fn range_refusal_from(parents: Seq<usize>, depth: usize, i: int) -> Option<UnknownReason>
    decreases parents.len() - i,
{
    if i >= parents.len() || i < 0 {
        None
    } else if parents[i] > 1 {
        Some(UnknownReason::MergeCommits)
    } else if i + 1 > depth {
        Some(UnknownReason::TooManyCommits)
    } else {
        range_refusal_from(parents, depth, i + 1)
    }
}

/// Whether the walked range can be simulated, and why not when it cannot.
pub fn range_refusal(parents: &Vec<usize>, depth: usize) -> (r: Option<UnknownReason>)
    ensures
        r == range_refusal_spec(parents@, depth),
{
    let mut i: usize = 0;
    while i < parents.len()
        invariant
            i <= parents.len(),
            range_refusal_spec(parents@, depth) == range_refusal_from(parents@, depth, i as int),
        decreases parents.len() - i,
    {
        if parents[i] > 1 {
            return Some(UnknownReason::MergeCommits);
        }
        if i >= depth {
            return Some(UnknownReason::TooManyCommits);
        }
        i += 1;
    }
    None
}

/// The cached inputs a stored future was computed from.
pub struct CacheKey {
    pub base_ref: String,
    pub base_tip: String,
    pub branch_tip: String,
    pub open_tree: Option<String>,
}

/// A cached future is served exactly when all four of its inputs still
/// match: a stale entry is by definition one that is not used.
pub fn cache_hit(entry: &CacheKey, now: &CacheKey) -> (r: bool)
    ensures
        r == (entry.base_ref@ == now.base_ref@ && entry.base_tip@ == now.base_tip@
            && entry.branch_tip@ == now.branch_tip@ && crate::text::opt_view(entry.open_tree)
            == crate::text::opt_view(now.open_tree)),
{
    let same_open = match (&entry.open_tree, &now.open_tree) {
        (Some(a), Some(b)) => str_eq(a.as_str(), b.as_str()),
        (None, None) => true,
        _ => false,
    };
    str_eq(entry.base_ref.as_str(), now.base_ref.as_str()) && str_eq(
        entry.base_tip.as_str(),
        now.base_tip.as_str(),
    ) && str_eq(entry.branch_tip.as_str(), now.branch_tip.as_str()) && same_open
}

} // verus!
