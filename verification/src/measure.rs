//! What a commit's own change is measured against: its one parent's tree,
//! the empty tree for a root, and for a merge the auto-merge of its
//! parents, the first parent standing in with the reason when the
//! auto-merge cannot be made.

use vstd::prelude::*;

verus! {

/// What a commit's own change is measured against, and why.
#[derive(Debug, Clone)]
pub enum Against {
    /// Its one parent's tree, or the empty tree for a root commit.
    Parent,
    /// The auto-merge of its parents: what the merge itself did.
    AutoMerge,
    /// Its first parent's tree, because the auto-merge could not be made.
    FirstParent(Fallback),
}

/// Why a merge fell back to its first parent.
#[derive(Debug, Clone)]
pub enum Fallback {
    /// Two parents with no common ancestor.
    NoBase,
    /// The auto-merge conflicts in these paths, sorted.
    Conflicts(Vec<String>),
}

impl Against {
    /// The word JSON carries for each measure.
    pub open spec fn word_spec(&self) -> Seq<char> {
        match self {
            Against::Parent => "parent"@,
            Against::AutoMerge => "auto-merge"@,
            Against::FirstParent(_) => "first-parent"@,
        }
    }

    /// The word JSON carries: `parent`, `auto-merge`, `first-parent`.
    pub fn word(&self) -> (r: &'static str)
        ensures
            r@ == self.word_spec(),
    {
        match self {
            Against::Parent => "parent",
            Against::AutoMerge => "auto-merge",
            Against::FirstParent(_) => "first-parent",
        }
    }
}

/// How a merge's measure comes out once the fold over its parents has
/// run: the auto-merge when every step merged clean, else the first parent
/// with the first failure's reason. `steps` holds, per further parent, no
/// common ancestor (`None`) or the step's conflicted paths.
pub fn merge_measure(steps: &Vec<Option<Vec<String>>>) -> (r: Against)
    ensures
        (forall|i: int| 0 <= i < steps@.len() ==> (#[trigger] steps@[i] matches Some(c) && c@.len() == 0)) ==> r is AutoMerge,
        (exists|i: int| 0 <= i < steps@.len() && !(#[trigger] steps@[i] matches Some(c) && c@.len() == 0)) ==> ({
            let k = choose|k: int| 0 <= k < steps@.len() && !(#[trigger] steps@[k] matches Some(c) && c@.len() == 0)
                && forall|j: int| 0 <= j < k ==> (#[trigger] steps@[j] matches Some(c) && c@.len() == 0);
            match steps@[k] {
                None => r matches Against::FirstParent(Fallback::NoBase),
                Some(c) => r matches Against::FirstParent(Fallback::Conflicts(p)) && p@ == c@,
            }
        }),
{
    let mut i: usize = 0;
    while i < steps.len()
        invariant
            i <= steps@.len(),
            forall|j: int| 0 <= j < i ==> (#[trigger] steps@[j] matches Some(c) && c@.len() == 0),
        decreases steps.len() - i,
    {
        match &steps[i] {
            None => {
                proof {
                    lemma_first_failure(steps@, i as int);
                }
                return Against::FirstParent(Fallback::NoBase);
            },
            Some(c) => {
                if c.len() > 0 {
                    let mut p: Vec<String> = Vec::new();
                    let mut k: usize = 0;
                    while k < c.len()
                        invariant
                            k <= c@.len(),
                            p@ == c@.take(k as int),
                        decreases c.len() - k,
                    {
                        p.push(c[k].clone());
                        k += 1;
                        assert(p@ =~= c@.take(k as int));
                    }
                    assert(c@.take(c@.len() as int) =~= c@);
                    proof {
                        lemma_first_failure(steps@, i as int);
                    }
                    return Against::FirstParent(Fallback::Conflicts(p));
                }
            },
        }
        i += 1;
    }
    Against::AutoMerge
}

/// The first failing step is the one before which every step is clean.
proof fn lemma_first_failure(steps: Seq<Option<Vec<String>>>, i: int)
    requires
        0 <= i < steps.len(),
        !(steps[i] matches Some(c) && c@.len() == 0),
        forall|j: int| 0 <= j < i ==> (#[trigger] steps[j] matches Some(c) && c@.len() == 0),
    ensures
        (choose|k: int| 0 <= k < steps.len() && !(#[trigger] steps[k] matches Some(c) && c@.len() == 0)
            && forall|j: int| 0 <= j < k ==> (#[trigger] steps[j] matches Some(c) && c@.len() == 0)) == i,
{
    let k = choose|k: int| 0 <= k < steps.len() && !(#[trigger] steps[k] matches Some(c) && c@.len() == 0)
        && forall|j: int| 0 <= j < k ==> (#[trigger] steps[j] matches Some(c) && c@.len() == 0);
    assert(0 <= i < steps.len() && !(steps[i] matches Some(c) && c@.len() == 0)
        && forall|j: int| 0 <= j < i ==> (#[trigger] steps[j] matches Some(c) && c@.len() == 0));
    if k < i {
        assert(steps[k] matches Some(c) && c@.len() == 0);
    } else if k > i {
        assert(steps[i] matches Some(c) && c@.len() == 0);
    }
}

/// The tree a commit is measured against, with the reason, and the commit
/// that tree belongs to when it is a commit's.
#[derive(Debug, Clone)]
pub struct Measure {
    pub tree: crate::oid::Oid,
    pub against: Against,
    /// The only parent, or the first parent under the fallback; `None` for
    /// a root commit and for an auto-merge.
    pub commit: Option<crate::oid::Oid>,
}

/// A commit's measure from its parents: none is the empty tree; one is that
/// parent's tree (`first_tree`); a merge is `merged`, the auto-merge the
/// fold over `steps` produced, when every step merged clean, and otherwise
/// the first parent's tree with the first failure's reason.
pub fn measure_of(
    parents: &Vec<crate::oid::Oid>,
    first_tree: crate::oid::Oid,
    empty_tree: crate::oid::Oid,
    steps: &Vec<Option<Vec<String>>>,
    merged: crate::oid::Oid,
) -> (r: Measure)
    ensures
        parents@.len() == 0 ==> r.tree == empty_tree && r.against is Parent && r.commit is None,
        parents@.len() == 1 ==> r.tree == first_tree && r.against is Parent && r.commit == Some(parents@[0]),
        parents@.len() > 1 ==> ({
            let clean = forall|i: int| 0 <= i < steps@.len() ==> (#[trigger] steps@[i] matches Some(c) && c@.len() == 0);
            &&& clean ==> r.tree == merged && r.against is AutoMerge && r.commit is None
            &&& !clean ==> r.tree == first_tree && r.against is FirstParent && r.commit == Some(parents@[0])
        }),
{
    if parents.len() == 0 {
        return Measure { tree: empty_tree, against: Against::Parent, commit: None };
    }
    if parents.len() == 1 {
        return Measure { tree: first_tree, against: Against::Parent, commit: Some(parents[0]) };
    }
    let against = merge_measure(steps);
    match against {
        Against::AutoMerge => Measure { tree: merged, against: Against::AutoMerge, commit: None },
        _ => Measure { tree: first_tree, against, commit: Some(parents[0]) },
    }
}

} // verus!
