//! Per-file insertions and deletions between two trees: how each change is
//! classified, and how the per-file rows become one diffstat.

use vstd::prelude::*;
use crate::bytes::{bytes_le, bytes_lt};
use crate::model::{ChangeKind, ChangeStat, FileStat};

verus! {

/// How deep to read a tree diff, and over which paths.
#[derive(Debug, Clone, Default)]
pub struct DiffOptions {
    /// Fill each file's patch body, not just its size.
    pub hunks: bool,
    /// Restrict the report to these paths; empty means every file.
    pub paths: Vec<String>,
}

/// The type class of a tree entry's mode, which is what tells a type change
/// from a modification.
#[derive(Debug, Clone, Copy, PartialEq, Eq, Structural)]
pub enum ModeClass {
    File,
    Symlink,
    Commit,
    Tree,
}

/// The shape of one change a tree diff reports.
#[derive(Debug, Clone, Copy, PartialEq, Eq, Structural)]
pub enum ChangeShape {
    Addition,
    Deletion,
    Modification { previous: ModeClass, now: ModeClass },
    Rewrite { copy: bool },
}

/// The kind a change is reported as.
pub open spec fn kind_of(shape: ChangeShape) -> ChangeKind {
    match shape {
        ChangeShape::Addition => ChangeKind::Added,
        ChangeShape::Deletion => ChangeKind::Deleted,
        ChangeShape::Modification { previous, now } => if previous != now {
            ChangeKind::TypeChange
        } else {
            ChangeKind::Modified
        },
        ChangeShape::Rewrite { copy } => if copy {
            ChangeKind::Copied
        } else {
            ChangeKind::Renamed
        },
    }
}

/// Classify a change: a modification that changes the entry's type class
/// is a type change, a rewrite is a copy or a rename.
pub fn classify(shape: ChangeShape) -> (k: ChangeKind)
    ensures
        k == kind_of(shape),
{
    match shape {
        ChangeShape::Addition => ChangeKind::Added,
        ChangeShape::Deletion => ChangeKind::Deleted,
        ChangeShape::Modification { previous, now } => {
            if previous != now {
                ChangeKind::TypeChange
            } else {
                ChangeKind::Modified
            }
        },
        ChangeShape::Rewrite { copy } => {
            if copy {
                ChangeKind::Copied
            } else {
                ChangeKind::Renamed
            }
        },
    }
}

/// A file row's path as bytes.
pub open spec fn path_bytes(f: FileStat) -> Seq<u8> {
    vstd::utf8::encode_utf8(f.path@)
}

/// The rows in path order, byte by byte.
pub open spec fn rows_sorted(s: Seq<FileStat>) -> bool {
    forall|i: int, j: int| 0 <= i < j < s.len() ==> bytes_le(path_bytes(s[i]), path_bytes(s[j]))
}

/// The insertions of every row.
pub open spec fn total_insertions(s: Seq<FileStat>) -> int
    decreases s.len(),
{
    if s.len() == 0 {
        0
    } else {
        total_insertions(s.drop_last()) + s.last().insertions
    }
}

/// The deletions of every row.
pub open spec fn total_deletions(s: Seq<FileStat>) -> int
    decreases s.len(),
{
    if s.len() == 0 {
        0
    } else {
        total_deletions(s.drop_last()) + s.last().deletions
    }
}

fn path_key(f: &FileStat) -> (b: Vec<u8>)
    ensures
        b@ == path_bytes(*f),
{
    f.path.as_str().as_bytes_vec()
}

/// The diffstat of a set of rows: the same rows sorted by path bytes, and
/// the counts summed over them.
pub fn stat_of(files: Vec<FileStat>) -> (r: ChangeStat)
    requires
        total_insertions(files@) <= u32::MAX,
        total_deletions(files@) <= u32::MAX,
    ensures
        rows_sorted(r.files@),
        r.files@.to_multiset() == files@.to_multiset(),
        r.insertions == total_insertions(files@),
        r.deletions == total_deletions(files@),
{
    let mut insertions: u32 = 0;
    let mut deletions: u32 = 0;
    let mut k: usize = 0;
    while k < files.len()
        invariant
            k <= files@.len(),
            total_insertions(files@) <= u32::MAX,
            total_deletions(files@) <= u32::MAX,
            insertions == total_insertions(files@.take(k as int)),
            deletions == total_deletions(files@.take(k as int)),
        decreases files.len() - k,
    {
        proof {
            assert(files@.take(k + 1).drop_last() =~= files@.take(k as int));
            lemma_totals_bounded(files@, k + 1);
        }
        insertions = insertions + files[k].insertions;
        deletions = deletions + files[k].deletions;
        k += 1;
    }
    proof {
        assert(files@.take(files@.len() as int) =~= files@);
    }
    let ghost input = files@;
    let mut rest = files;
    let mut out: Vec<FileStat> = Vec::new();
    let mut taken: usize = 0;
    proof {
        assert(input.take(0) =~= Seq::<FileStat>::empty());
        assert(input.skip(0) =~= input);
    }
    while rest.len() > 0
        invariant
            taken <= input.len(),
            input.len() <= usize::MAX,
            rest@ == input.skip(taken as int),
            rows_sorted(out@),
            out@.to_multiset() == input.take(taken as int).to_multiset(),
        decreases rest.len(),
    {
        proof {
            assert(taken < input.len());
        }
        let x = rest.remove(0);
        proof {
            assert(input.skip(taken as int)[0] == x);
            assert(rest@ =~= input.skip(taken + 1));
        }
        let xk = path_key(&x);
        let mut p: usize = 0;
        while p < out.len() && !crate::bytes::lt(&xk, &path_key(&out[p]))
            invariant
                p <= out@.len(),
                xk@ == path_bytes(x),
                forall|q: int| 0 <= q < p ==> bytes_le(#[trigger] path_bytes(out@[q]), xk@),
            decreases out.len() - p,
        {
            proof {
                crate::bytes::lemma_lt_total(xk@, path_bytes(out@[p as int]));
            }
            p += 1;
        }
        let ghost before = out@;
        out.insert(p, x);
        proof {
            vstd::seq_lib::to_multiset_insert(before, p as int, x);
            assert(input.take(taken + 1) =~= input.take(taken as int).push(x));
            vstd::seq_lib::to_multiset_build(input.take(taken as int), x);
            assert forall|a: int, b: int| 0 <= a < b < out@.len() implies bytes_le(
                path_bytes(out@[a]),
                path_bytes(out@[b]),
            ) by {
                let s = out@;
                if b < p {
                    assert(s[a] == before[a] && s[b] == before[b]);
                } else if b == p {
                    assert(s[a] == before[a]);
                } else if a < p {
                    assert(s[a] == before[a] && s[b] == before[b - 1]);
                    assert(bytes_lt(xk@, path_bytes(before[p as int])));
                    if b - 1 > p {
                        crate::bytes::lemma_le_transitive(
                            xk@,
                            path_bytes(before[p as int]),
                            path_bytes(before[b - 1]),
                        );
                    }
                    crate::bytes::lemma_le_transitive(
                        path_bytes(before[a]),
                        xk@,
                        path_bytes(before[b - 1]),
                    );
                } else if a == p {
                    assert(s[b] == before[b - 1]);
                    assert(bytes_lt(xk@, path_bytes(before[p as int])));
                    if b - 1 > p {
                        crate::bytes::lemma_le_transitive(
                            xk@,
                            path_bytes(before[p as int]),
                            path_bytes(before[b - 1]),
                        );
                    }
                } else {
                    assert(s[a] == before[a - 1] && s[b] == before[b - 1]);
                }
            }
        }
        taken += 1;
    }
    proof {
        assert(input.take(input.len() as int) =~= input);
    }
    ChangeStat { files: out, insertions, deletions }
}

/// Every prefix's totals are at most the whole's.
proof fn lemma_totals_bounded(s: Seq<FileStat>, k: int)
    requires
        0 <= k <= s.len(),
    ensures
        total_insertions(s.take(k)) <= total_insertions(s),
        total_deletions(s.take(k)) <= total_deletions(s),
    decreases s.len() - k,
{
    if k < s.len() {
        lemma_totals_bounded(s, k + 1);
        assert(s.take(k + 1).drop_last() =~= s.take(k));
    } else {
        assert(s.take(k) =~= s);
    }
}

} // verus!
