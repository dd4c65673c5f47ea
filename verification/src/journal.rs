//! The op journal's record and its ref table. One entry per fufu mutation:
//! the machine record (`op.json`) and the full last-seen ref table (`refs`,
//! packed-refs-shaped). Reconciliation diffs the current refs against the
//! tip entry's table, and foreign motion becomes one `foreign` entry.

use vstd::prelude::*;
use crate::error::{Error, Result};
use crate::held::{HeldTransition, ResolveTransition, SessionTransition};
use crate::model::ForeignChange;
use crate::text::{seq_lt, lemma_seq_lt_total, lemma_seq_lt_transitive, lemma_seq_lt_irreflexive};

verus! {

pub const JOURNAL_REF: &'static str = "refs/fufu/journal";

/// Where a corrupt journal chain is parked before re-init.
pub const JOURNAL_TRASH_REF: &'static str = "refs/fufu/trash/@journal";

const RECORD_VERSION: u32 = 1;

#[derive(Debug, Clone, Copy, PartialEq, Eq, Structural)]
pub enum OpKind {
    /// A fufu mutation, journaled write-ahead.
    Op,
    /// External motion absorbed by reconciliation.
    Foreign,
    /// A non-pinning marker (init, trim).
    Note,
}

/// One ref's transition, full shas (or `None` for created/deleted ends).
#[derive(Debug, Clone)]
pub struct RefTransition {
    pub name: String,
    pub old: Option<String>,
    pub new: Option<String>,
}

/// A stash-stack effect performed by the op.
#[derive(Debug, Clone)]
pub enum StashEffect {
    Push { branch: String, stash: String },
    Drop { branch: String, stash: String },
}

/// A pending-description change (old/new text, `None` = absent).
#[derive(Debug, Clone)]
pub struct DescriptionTransition {
    pub branch: String,
    pub old: Option<String>,
    pub new: Option<String>,
}

/// The machine record inside every journal entry (`op.json`).
#[derive(Debug, Clone)]
pub struct OpRecord {
    pub version: u32,
    pub kind: OpKind,
    /// The fufu verb (`commit`, `switch`, …) or `reconcile`/`init`.
    pub verb: String,
    /// Human summary, doubling as the commit subject.
    pub summary: String,
    pub argv: Vec<String>,
    pub time: i64,
    /// Branch (chain name) the op ran on, if on one.
    pub branch: Option<String>,
    /// The capture-first snapshot taken before the op.
    pub pre_snapshot: Option<String>,
    /// The pre-op index tree.
    pub index_tree: Option<String>,
    /// HEAD's transition: `ref:<name>` for symbolic, sha for detached.
    pub head: Option<(String, String)>,
    pub refs: Vec<RefTransition>,
    pub stash: Vec<StashEffect>,
    pub description: Option<DescriptionTransition>,
    /// The journal entry this op undoes, when the verb is `undo`.
    pub undo_of: Option<String>,
    /// The previous journal entry.
    pub prev: Option<String>,
    /// A hold's change on one branch, when the op set or cleared one.
    pub held: Option<HeldTransition>,
    /// A resolution's change on one branch.
    pub resolving: Option<ResolveTransition>,
    /// A resolution session's change, when the op opened, rolled or ended one.
    pub resolve_session: Option<SessionTransition>,
}

impl OpRecord {
    /// A bare record: the kind, the verb, the summary and the time, and
    /// nothing else yet.
    pub fn new(kind: OpKind, verb: &str, summary: &str, time: i64) -> (r: OpRecord)
        ensures
            r.version == 1,
            r.kind == kind,
            r.verb@ == verb@,
            r.summary@ == summary@,
            r.argv@.len() == 0,
            r.time == time,
            r.branch is None,
            r.pre_snapshot is None,
            r.index_tree is None,
            r.head is None,
            r.refs@.len() == 0,
            r.stash@.len() == 0,
            r.description is None,
            r.undo_of is None,
            r.prev is None,
            r.held is None,
            r.resolving is None,
            r.resolve_session is None,
    {
        OpRecord {
            version: RECORD_VERSION,
            kind,
            verb: crate::text::owned(verb),
            summary: crate::text::owned(summary),
            argv: Vec::new(),
            time,
            branch: None,
            pre_snapshot: None,
            index_tree: None,
            head: None,
            refs: Vec::new(),
            stash: Vec::new(),
            description: None,
            undo_of: None,
            prev: None,
            held: None,
            resolving: None,
            resolve_session: None,
        }
    }
}

/// The full last-seen ref table: HEAD plus every journal-tracked ref, the
/// refs sorted by name with each name once.
#[derive(Debug, Clone)]
pub struct RefsTable {
    /// `ref:<full-name>` while on a branch (born or not), sha when detached.
    pub head: String,
    /// Full ref name and sha, sorted by name.
    pub refs: Vec<(String, String)>,
}

/// Names strictly increasing, so each one occurs once.
pub open spec fn sorted_names(refs: Seq<(String, String)>) -> bool {
    forall|i: int, j: int| 0 <= i < j < refs.len() ==> seq_lt(refs[i].0@, refs[j].0@)
}

/// Whether some entry carries the name `n`.
pub open spec fn has_name(refs: Seq<(String, String)>, n: Seq<char>) -> bool {
    exists|i: int| 0 <= i < refs.len() && (#[trigger] refs[i]).0@ == n
}

/// The value of the entry named `n`.
pub open spec fn value_for(refs: Seq<(String, String)>, n: Seq<char>) -> Seq<char> {
    refs[index_of_name(refs, n)].1@
}

/// A position whose entry carries the name `n`, when there is one.
pub open spec fn index_of_name(refs: Seq<(String, String)>, n: Seq<char>) -> int {
    choose|i: int| 0 <= i < refs.len() && (#[trigger] refs[i]).0@ == n
}

/// The entries as a map from name to sha.
pub open spec fn pairs_map(refs: Seq<(String, String)>) -> Map<Seq<char>, Seq<char>> {
    Map::new(|n: Seq<char>| has_name(refs, n), |n: Seq<char>| value_for(refs, n))
}

/// A map's value for `n`, when it has one.
pub open spec fn opt_get(m: Map<Seq<char>, Seq<char>>, n: Seq<char>) -> Option<Seq<char>> {
    if m.dom().contains(n) {
        Some(m[n])
    } else {
        None
    }
}

/// In a sorted table an entry's name maps to its own value.
pub proof fn lemma_map_at(refs: Seq<(String, String)>, i: int)
    requires
        sorted_names(refs),
        0 <= i < refs.len(),
    ensures
        pairs_map(refs).dom().contains(refs[i].0@),
        pairs_map(refs)[refs[i].0@] == refs[i].1@,
{
    let n = refs[i].0@;
    assert(has_name(refs, n));
    let j = index_of_name(refs, n);
    if j != i {
        lemma_seq_lt_irreflexive(n);
        if j < i {
            assert(seq_lt(refs[j].0@, refs[i].0@));
        } else {
            assert(seq_lt(refs[i].0@, refs[j].0@));
        }
    }
    assert(j == i);
    assert(value_for(refs, n) == refs[j].1@);
}

impl RefsTable {
    /// Refs sorted by name, each name once.
    pub open spec fn wf(&self) -> bool {
        sorted_names(self.refs@)
    }

    /// The refs as a map from name to sha.
    pub open spec fn map(&self) -> Map<Seq<char>, Seq<char>> {
        pairs_map(self.refs@)
    }

    /// Where `name` stands among the sorted names: the first position whose
    /// name does not sort before it, and whether the name is there.
    fn locate(&self, name: &Vec<char>) -> (r: (usize, bool))
        requires
            self.wf(),
        ensures
            r.0 <= self.refs@.len(),
            forall|i: int| 0 <= i < r.0 ==> seq_lt((#[trigger] self.refs@[i]).0@, name@),
            forall|i: int| r.0 <= i < self.refs@.len() ==> seq_lt(name@, (#[trigger] self.refs@[i]).0@) || (i == r.0 && r.1),
            r.1 ==> r.0 < self.refs@.len() && self.refs@[r.0 as int].0@ == name@,
    {
        let mut p: usize = 0;
        while p < self.refs.len()
            invariant
                self.wf(),
                p <= self.refs@.len(),
                forall|i: int| 0 <= i < p ==> seq_lt((#[trigger] self.refs@[i]).0@, name@),
            decreases self.refs.len() - p,
        {
            let key = crate::text::chars_of(self.refs[p].0.as_str());
            if !crate::text::chars_lt(&key, name) {
                let found = crate::text::chars_eq(&key, name);
                proof {
                    lemma_seq_lt_total(key@, name@);
                    assert forall|i: int| p <= i < self.refs@.len() implies seq_lt(name@, (#[trigger] self.refs@[i]).0@) || (i == p && found) by {
                        if i > p {
                            assert(seq_lt(self.refs@[p as int].0@, self.refs@[i].0@));
                            if !found {
                                lemma_seq_lt_transitive(name@, key@, self.refs@[i].0@);
                            }
                        }
                    }
                }
                return (p, found);
            }
            p += 1;
        }
        (p, false)
    }

    /// The sha recorded for `name`.
    pub fn get(&self, name: &str) -> (r: Option<String>)
        requires
            self.wf(),
        ensures
            crate::text::opt_view(r) == opt_get(self.map(), name@),
    {
        let n = crate::text::chars_of(name);
        let (p, found) = self.locate(&n);
        if found {
            proof {
                lemma_map_at(self.refs@, p as int);
            }
            Some(self.refs[p].1.clone())
        } else {
            proof {
                if has_name(self.refs@, name@) {
                    let i = choose|i: int| 0 <= i < self.refs@.len() && (#[trigger] self.refs@[i]).0@ == name@;
                    lemma_seq_lt_irreflexive(name@);
                }
            }
            None
        }
    }

    /// Record `value` for `name`, replacing what was there.
    pub fn insert(&mut self, name: &str, value: &str)
        requires
            old(self).wf(),
        ensures
            final(self).wf(),
            final(self).map() == old(self).map().insert(name@, value@),
            final(self).head == old(self).head,
    {
        let n = crate::text::chars_of(name);
        let (p, found) = self.locate(&n);
        let ghost before = self.refs@;
        let entry = (crate::text::owned(name), crate::text::owned(value));
        if found {
            self.refs.set(p, entry);
            proof {
                let after = self.refs@;
                assert forall|i: int, j: int| 0 <= i < j < after.len() implies seq_lt(after[i].0@, after[j].0@) by {
                    assert(after[i].0@ == before[i].0@);
                    assert(after[j].0@ == before[j].0@);
                }
                assert forall|m: Seq<char>| #[trigger] pairs_map(after).dom().contains(m) == before_map_insert(before, name@, value@).dom().contains(m) by {
                    if has_name(after, m) {
                        let i = choose|i: int| 0 <= i < after.len() && (#[trigger] after[i]).0@ == m;
                        assert(before[i].0@ == m || i == p);
                    }
                    if has_name(before, m) {
                        let i = choose|i: int| 0 <= i < before.len() && (#[trigger] before[i]).0@ == m;
                        assert(after[i].0@ == m);
                    }
                    if m == name@ {
                        assert(after[p as int].0@ == m);
                    }
                }
                assert forall|m: Seq<char>| #[trigger] pairs_map(after).dom().contains(m) implies pairs_map(after)[m] == before_map_insert(before, name@, value@)[m] by {
                    let i = choose|i: int| 0 <= i < after.len() && (#[trigger] after[i]).0@ == m;
                    lemma_map_at(after, i);
                    if i != p {
                        lemma_map_at(before, i);
                        lemma_seq_lt_total(m, name@);
                    }
                }
                assert(pairs_map(after) =~= before_map_insert(before, name@, value@));
            }
        } else {
            self.refs.insert(p, entry);
            proof {
                let after = self.refs@;
                assert forall|i: int, j: int| 0 <= i < j < after.len() implies seq_lt(after[i].0@, after[j].0@) by {
                    if j < p {
                        assert(after[i] == before[i] && after[j] == before[j]);
                    } else if j == p {
                        assert(after[i] == before[i]);
                    } else if i < p {
                        assert(after[i] == before[i] && after[j] == before[j - 1]);
                        lemma_seq_lt_transitive(before[i].0@, name@, before[j - 1].0@);
                    } else if i == p {
                        assert(after[j] == before[j - 1]);
                    } else {
                        assert(after[i] == before[i - 1] && after[j] == before[j - 1]);
                    }
                }
                assert forall|m: Seq<char>| #[trigger] pairs_map(after).dom().contains(m) == before_map_insert(before, name@, value@).dom().contains(m) by {
                    if has_name(after, m) {
                        let i = choose|i: int| 0 <= i < after.len() && (#[trigger] after[i]).0@ == m;
                        if i < p {
                            assert(before[i].0@ == m);
                        } else if i > p {
                            assert(before[i - 1].0@ == m);
                        }
                    }
                    if has_name(before, m) {
                        let i = choose|i: int| 0 <= i < before.len() && (#[trigger] before[i]).0@ == m;
                        if i < p {
                            assert(after[i].0@ == m);
                        } else {
                            assert(after[i + 1].0@ == m);
                        }
                    }
                    if m == name@ {
                        assert(after[p as int].0@ == m);
                    }
                }
                assert forall|m: Seq<char>| #[trigger] pairs_map(after).dom().contains(m) implies pairs_map(after)[m] == before_map_insert(before, name@, value@)[m] by {
                    let i = choose|i: int| 0 <= i < after.len() && (#[trigger] after[i]).0@ == m;
                    lemma_map_at(after, i);
                    if i < p {
                        lemma_map_at(before, i);
                        lemma_seq_lt_total(m, name@);
                    } else if i > p {
                        lemma_map_at(before, i - 1);
                        lemma_seq_lt_total(m, name@);
                    }
                }
                assert(pairs_map(after) =~= before_map_insert(before, name@, value@));
            }
        }
    }

    /// Forget `name`.
    pub fn remove(&mut self, name: &str)
        requires
            old(self).wf(),
        ensures
            final(self).wf(),
            final(self).map() == old(self).map().remove(name@),
            final(self).head == old(self).head,
    {
        let n = crate::text::chars_of(name);
        let (p, found) = self.locate(&n);
        let ghost before = self.refs@;
        if found {
            self.refs.remove(p);
            proof {
                let after = self.refs@;
                assert forall|i: int, j: int| 0 <= i < j < after.len() implies seq_lt(after[i].0@, after[j].0@) by {
                    if j < p {
                        assert(after[i] == before[i] && after[j] == before[j]);
                    } else if i < p {
                        assert(after[i] == before[i] && after[j] == before[j + 1]);
                    } else {
                        assert(after[i] == before[i + 1] && after[j] == before[j + 1]);
                    }
                }
                assert forall|m: Seq<char>| #[trigger] pairs_map(after).dom().contains(m) == pairs_map(before).remove(name@).dom().contains(m) by {
                    if has_name(after, m) {
                        let i = choose|i: int| 0 <= i < after.len() && (#[trigger] after[i]).0@ == m;
                        if i < p {
                            assert(before[i].0@ == m);
                            lemma_seq_lt_total(m, name@);
                        } else {
                            assert(before[i + 1].0@ == m);
                            lemma_seq_lt_total(name@, m);
                        }
                    }
                    if has_name(before, m) && m != name@ {
                        let i = choose|i: int| 0 <= i < before.len() && (#[trigger] before[i]).0@ == m;
                        if i < p {
                            assert(after[i].0@ == m);
                        } else {
                            assert(i != p);
                            assert(after[i - 1].0@ == m);
                        }
                    }
                }
                assert forall|m: Seq<char>| #[trigger] pairs_map(after).dom().contains(m) implies pairs_map(after)[m] == pairs_map(before).remove(name@)[m] by {
                    let i = choose|i: int| 0 <= i < after.len() && (#[trigger] after[i]).0@ == m;
                    lemma_map_at(after, i);
                    if i < p {
                        lemma_map_at(before, i);
                    } else {
                        lemma_map_at(before, i + 1);
                    }
                }
                assert(pairs_map(after) =~= pairs_map(before).remove(name@));
            }
        } else {
            proof {
                if has_name(before, name@) {
                    let i = choose|i: int| 0 <= i < before.len() && (#[trigger] before[i]).0@ == name@;
                    lemma_seq_lt_irreflexive(name@);
                }
                assert(pairs_map(before) =~= pairs_map(before).remove(name@));
            }
        }
    }
}

/// The map of a table with one more name set.
pub open spec fn before_map_insert(refs: Seq<(String, String)>, n: Seq<char>, v: Seq<char>) -> Map<Seq<char>, Seq<char>> {
    pairs_map(refs).insert(n, v)
}

impl Default for RefsTable {
    /// The empty table: no HEAD yet, no refs.
    fn default() -> (r: RefsTable)
        ensures
            r.head@.len() == 0,
            r.refs@.len() == 0,
    {
        RefsTable { head: String::new(), refs: Vec::new() }
    }
}


/// The word that names HEAD's line in the table.
pub open spec fn head_word() -> Seq<char> {
    seq!['H', 'E', 'A', 'D']
}

/// One table line, `<sha> <name>`, without its ending.
pub open spec fn entry_text(e: (String, String)) -> Seq<char> {
    e.1@ + seq![' '] + e.0@
}

/// The entry lines, each with its `\n`.
pub open spec fn entries_text(refs: Seq<(String, String)>) -> Seq<char>
    decreases refs.len(),
{
    if refs.len() == 0 {
        seq![]
    } else {
        entry_text(refs[0]) + seq!['\n'] + entries_text(refs.drop_first())
    }
}

/// Where a line's first space stands.
pub open spec fn space_at(l: Seq<char>) -> nat {
    crate::text::count_before(l, ' ')
}

/// The part of a line before its first space: the value.
pub open spec fn line_value(l: Seq<char>) -> Seq<char> {
    l.take(space_at(l) as int)
}

/// The part of a line after its first space: the name.
pub open spec fn line_name(l: Seq<char>) -> Seq<char> {
    l.skip(space_at(l) as int + 1)
}

/// How many lines lead the text before the first one without a space (all
/// of them when every line has one).
pub open spec fn first_bad(lines: Seq<Seq<char>>) -> nat
    decreases lines.len(),
{
    if lines.len() == 0 || space_at(lines[0]) >= lines[0].len() {
        0
    } else {
        1 + first_bad(lines.drop_first())
    }
}

/// Reading the lines in order: a `HEAD` line sets HEAD, any other line
/// sets its name, a later line winning over an earlier one.
pub open spec fn read_lines(
    lines: Seq<Seq<char>>,
    acc: (Seq<char>, Map<Seq<char>, Seq<char>>),
) -> (Seq<char>, Map<Seq<char>, Seq<char>>)
    decreases lines.len(),
{
    if lines.len() == 0 {
        acc
    } else {
        let l = lines[0];
        let next = if line_name(l) == head_word() {
            (line_value(l), acc.1)
        } else {
            (acc.0, acc.1.insert(line_name(l), line_value(l)))
        };
        read_lines(lines.drop_first(), next)
    }
}

/// What reading a `refs` blob gives: the table's HEAD and refs, or the
/// error's text.
pub open spec fn read_blob(text: Seq<char>) -> core::result::Result<(Seq<char>, Map<Seq<char>, Seq<char>>), Seq<char>> {
    let ls = crate::text::lines_of(text);
    let k = first_bad(ls);
    if k < ls.len() {
        Err("malformed refs line: "@ + crate::text::debug_quoted(ls[k as int]))
    } else {
        let (h, m) = read_lines(ls, (Seq::empty(), Map::empty()));
        if h.len() == 0 {
            Err("refs table has no HEAD line"@)
        } else {
            Ok((h, m))
        }
    }
}

/// What a table must hold to be written out and read back unchanged: a
/// HEAD value that is one word, shas without spaces or line breaks, and
/// names free of line breaks, other than `HEAD`, not ending in `\r`.
pub open spec fn blob_safe(t: RefsTable) -> bool {
    &&& t.head@.len() > 0
    &&& forall|i: int| 0 <= i < t.head@.len() ==> t.head@[i] != ' ' && t.head@[i] != '\n'
    &&& forall|j: int| 0 <= j < t.refs@.len() ==> #[trigger] entry_safe(t.refs@[j])
}

/// One entry that a line can carry unchanged.
pub open spec fn entry_safe(e: (String, String)) -> bool {
    &&& forall|i: int| 0 <= i < e.1@.len() ==> e.1@[i] != ' ' && e.1@[i] != '\n'
    &&& forall|i: int| 0 <= i < e.0@.len() ==> e.0@[i] != '\n'
    &&& e.0@ != head_word()
    &&& !(e.0@.len() > 0 && e.0@.last() == '\r')
}

impl RefsTable {
    /// The `refs` blob: `<head> HEAD` first, then `<sha> <name>` in the
    /// table's order, each line ending in `\n`.
    pub open spec fn blob(&self) -> Seq<char> {
        self.head@ + seq![' '] + head_word() + seq!['\n'] + entries_text(self.refs@)
    }

    /// Serialize as the `refs` blob: `HEAD` line first, then `<sha> <name>`
    /// sorted by name, packed-refs-shaped, one state per line.
    pub fn to_blob(&self) -> (r: String)
        ensures
            r@ == self.blob(),
    {
        let mut out: Vec<char> = crate::text::chars_of(self.head.as_str());
        out.push(' ');
        out.push('H');
        out.push('E');
        out.push('A');
        out.push('D');
        out.push('\n');
        let ghost top = out@;
        assert(self.refs@.skip(0) =~= self.refs@);
        assert(top =~= self.head@ + seq![' '] + head_word() + seq!['\n']);
        let mut i: usize = 0;
        while i < self.refs.len()
            invariant
                i <= self.refs@.len(),
                top == self.head@ + seq![' '] + head_word() + seq!['\n'],
                out@ + entries_text(self.refs@.skip(i as int)) == self.blob(),
            decreases self.refs.len() - i,
        {
            let ghost before = out@;
            let ghost rest = self.refs@.skip(i as int);
            assert(rest.drop_first() =~= self.refs@.skip(i + 1));
            assert(rest[0] == self.refs@[i as int]);
            crate::text::extend_chars(&mut out, self.refs[i].1.as_str());
            out.push(' ');
            crate::text::extend_chars(&mut out, self.refs[i].0.as_str());
            out.push('\n');
            assert(out@ =~= before + (entry_text(rest[0]) + seq!['\n']));
            assert(before + entries_text(rest) =~= out@ + entries_text(self.refs@.skip(i + 1)));
            i += 1;
        }
        assert(self.refs@.skip(i as int) =~= Seq::<(String, String)>::empty());
        assert(out@ + entries_text(Seq::<(String, String)>::empty()) =~= out@);
        crate::text::string_of(&out)
    }

    /// Read a `refs` blob back: every line `<value> <name>`, split at its
    /// first space, a `HEAD` line setting HEAD and any other setting its
    /// name; a line without a space, or no HEAD value at the end, is an
    /// error.
    pub fn from_blob(text: &str) -> (r: Result<RefsTable>)
        ensures
            match read_blob(text@) {
                Ok((h, m)) => r matches Ok(t) && t.wf() && t.head@ == h && t.map() == m,
                Err(msg) => r matches Err(Error::Repo(x)) && x@ == msg,
            },
    {
        let tv = crate::text::chars_of(text);
        let ls = crate::text::lines(&tv);
        let ghost views = ls@.map_values(|l: Vec<char>| l@);
        let mut table = RefsTable { head: String::new(), refs: Vec::new() };
        proof {
            assert(pairs_map(table.refs@) =~= Map::<Seq<char>, Seq<char>>::empty());
            assert(views.skip(0) =~= views);
        }
        let mut i: usize = 0;
        while i < ls.len()
            invariant
                i <= ls@.len(),
                views == ls@.map_values(|l: Vec<char>| l@),
                views == crate::text::lines_of(text@),
                table.wf(),
                first_bad(views) == i + first_bad(views.skip(i as int)),
                read_lines(views, (Seq::empty(), Map::empty())) == read_lines(views.skip(i as int), (table.head@, table.map())),
            decreases ls.len() - i,
        {
            let ghost rest = views.skip(i as int);
            proof {
                assert(rest.drop_first() =~= views.skip(i + 1));
                assert(rest[0] == ls@[i as int]@);
            }
            let line = &ls[i];
            let k = crate::text::position_of(line, ' ');
            if k >= line.len() {
                let q = crate::text::quoted(crate::text::string_of(line).as_str());
                let m = crate::text::concat("malformed refs line: ", q.as_str());
                return Err(Error::Repo(m));
            }
            let value = crate::text::slice_chars(line, 0, k);
            let name = crate::text::slice_chars(line, k + 1, line.len());
            proof {
                assert(value@ =~= line_value(line@));
                assert(name@ =~= line_name(line@));
            }
            let head_name = vec!['H', 'E', 'A', 'D'];
            assert(head_name@ =~= head_word());
            if crate::text::chars_eq(&name, &head_name) {
                table.head = crate::text::string_of(&value);
            } else {
                let ns = crate::text::string_of(&name);
                let vs = crate::text::string_of(&value);
                table.insert(ns.as_str(), vs.as_str());
            }
            i += 1;
        }
        proof {
            assert(views.skip(i as int) =~= Seq::<Seq<char>>::empty());
        }
        if table.head.as_str().unicode_len() == 0 {
            return Err(Error::msg("refs table has no HEAD line"));
        }
        Ok(table)
    }
}

/// The lines of an entry section are the entries' own texts.
proof fn lemma_entries_lines(refs: Seq<(String, String)>)
    requires
        forall|j: int| 0 <= j < refs.len() ==> #[trigger] entry_safe(refs[j]),
    ensures
        crate::text::lines_of(entries_text(refs)) == refs.map_values(|e: (String, String)| entry_text(e)),
    decreases refs.len(),
{
    if refs.len() == 0 {
        assert(crate::text::lines_of(Seq::<char>::empty()) =~= Seq::<Seq<char>>::empty());
        assert(refs.map_values(|e: (String, String)| entry_text(e)) =~= Seq::<Seq<char>>::empty());
    } else {
        let e = refs[0];
        assert(entry_safe(e));
        let a = entry_text(e);
        assert forall|i: int| 0 <= i < a.len() implies a[i] != '\n' by {
            if i < e.1@.len() {
                assert(a[i] == e.1@[i]);
            } else if i > e.1@.len() {
                assert(a[i] == e.0@[i - e.1@.len() - 1]);
            }
        }
        assert forall|j: int| 0 <= j < refs.drop_first().len() implies #[trigger] entry_safe(refs.drop_first()[j]) by {
            assert(refs.drop_first()[j] == refs[j + 1]);
            assert(entry_safe(refs[j + 1]));
        }
        lemma_entries_lines(refs.drop_first());
        crate::text::lemma_lines_of_line(a, entries_text(refs.drop_first()));
        assert(entries_text(refs) =~= a + seq!['\n'] + entries_text(refs.drop_first()));
        if a.len() > 0 && a.last() == '\r' {
            if e.0@.len() > 0 {
                assert(a.last() == e.0@.last());
            } else {
                assert(a.last() == ' ');
            }
        }
        assert(crate::text::strip_cr(a) == a);
        assert(refs.map_values(|e: (String, String)| entry_text(e)) =~= seq![a] + refs.drop_first().map_values(|e: (String, String)| entry_text(e)));
    }
}

/// A safe entry's line splits back into its sha and name.
proof fn lemma_entry_splits(e: (String, String))
    requires
        entry_safe(e),
    ensures
        space_at(entry_text(e)) == e.1@.len(),
        line_value(entry_text(e)) == e.1@,
        line_name(entry_text(e)) == e.0@,
{
    let a = entry_text(e);
    assert(a =~= e.1@ + (seq![' '] + e.0@));
    crate::text::lemma_count_before_append(e.1@, seq![' '] + e.0@, ' ');
    assert((seq![' '] + e.0@)[0] == ' ');
    assert(a.take(e.1@.len() as int) =~= e.1@);
    assert(a.skip(e.1@.len() as int + 1) =~= e.0@);
}

/// In a sorted table the first entry is set on top of the rest.
proof fn lemma_pairs_map_first(refs: Seq<(String, String)>)
    requires
        sorted_names(refs),
        refs.len() > 0,
    ensures
        sorted_names(refs.drop_first()),
        !pairs_map(refs.drop_first()).dom().contains(refs[0].0@),
        pairs_map(refs) == pairs_map(refs.drop_first()).insert(refs[0].0@, refs[0].1@),
{
    let tail = refs.drop_first();
    assert forall|i: int, j: int| 0 <= i < j < tail.len() implies seq_lt(tail[i].0@, tail[j].0@) by {
        assert(tail[i] == refs[i + 1] && tail[j] == refs[j + 1]);
    }
    if has_name(tail, refs[0].0@) {
        let i = index_of_name(tail, refs[0].0@);
        assert(tail[i] == refs[i + 1]);
        assert(seq_lt(refs[0].0@, refs[i + 1].0@));
        lemma_seq_lt_irreflexive(refs[0].0@);
    }
    let m = pairs_map(tail).insert(refs[0].0@, refs[0].1@);
    assert forall|n: Seq<char>| #[trigger] pairs_map(refs).dom().contains(n) == m.dom().contains(n) by {
        if has_name(refs, n) {
            let i = index_of_name(refs, n);
            if i > 0 {
                assert(tail[i - 1] == refs[i]);
            }
        }
        if has_name(tail, n) {
            let i = index_of_name(tail, n);
            assert(tail[i] == refs[i + 1]);
        }
        if n == refs[0].0@ {
            assert(refs[0].0@ == n);
        }
    }
    assert forall|n: Seq<char>| #[trigger] pairs_map(refs).dom().contains(n) implies pairs_map(refs)[n] == m[n] by {
        let i = index_of_name(refs, n);
        lemma_map_at(refs, i);
        if i > 0 {
            assert(tail[i - 1] == refs[i]);
            lemma_map_at(tail, i - 1);
            if n == refs[0].0@ {
                assert(seq_lt(refs[0].0@, refs[i].0@));
                lemma_seq_lt_irreflexive(n);
            }
        }
    }
    assert(pairs_map(refs) =~= m);
}

/// Reading a sorted table's entry lines sets each of its names to its sha
/// on top of what was set before.
proof fn lemma_read_entries(refs: Seq<(String, String)>, h: Seq<char>, m: Map<Seq<char>, Seq<char>>)
    requires
        sorted_names(refs),
        forall|j: int| 0 <= j < refs.len() ==> #[trigger] entry_safe(refs[j]),
    ensures
        first_bad(refs.map_values(|e: (String, String)| entry_text(e))) == refs.len(),
        read_lines(refs.map_values(|e: (String, String)| entry_text(e)), (h, m)) == (h, m.union_prefer_right(pairs_map(refs))),
    decreases refs.len(),
{
    let ls = refs.map_values(|e: (String, String)| entry_text(e));
    if refs.len() == 0 {
        assert(pairs_map(refs) =~= Map::<Seq<char>, Seq<char>>::empty());
        assert(m.union_prefer_right(pairs_map(refs)) =~= m);
    } else {
        let e = refs[0];
        assert(entry_safe(e));
        lemma_entry_splits(e);
        lemma_pairs_map_first(refs);
        let tail = refs.drop_first();
        assert forall|j: int| 0 <= j < tail.len() implies #[trigger] entry_safe(tail[j]) by {
            assert(tail[j] == refs[j + 1]);
            assert(entry_safe(refs[j + 1]));
        }
        assert(ls.drop_first() =~= tail.map_values(|e: (String, String)| entry_text(e)));
        assert(ls[0] == entry_text(e));
        lemma_read_entries(tail, h, m.insert(e.0@, e.1@));
        assert(m.insert(e.0@, e.1@).union_prefer_right(pairs_map(tail)) =~= m.union_prefer_right(pairs_map(refs)));
    }
}

/// A table written out as its `refs` blob and read back is the same table:
/// the same HEAD and the same refs, for every table whose values and names
/// a line can carry.
pub proof fn lemma_blob_round_trip(t: RefsTable)
    requires
        t.wf(),
        blob_safe(t),
    ensures
        read_blob(t.blob()) == core::result::Result::<(Seq<char>, Map<Seq<char>, Seq<char>>), Seq<char>>::Ok((t.head@, t.map())),
{
    let headline = t.head@ + seq![' '] + head_word();
    assert forall|i: int| 0 <= i < headline.len() implies headline[i] != '\n' by {
        if i < t.head@.len() {
            assert(headline[i] == t.head@[i]);
        }
    }
    assert(t.blob() =~= headline + seq!['\n'] + entries_text(t.refs@));
    crate::text::lemma_lines_of_line(headline, entries_text(t.refs@));
    assert(crate::text::strip_cr(headline) == headline);
    lemma_entries_lines(t.refs@);
    let els = t.refs@.map_values(|e: (String, String)| entry_text(e));
    let ls = crate::text::lines_of(t.blob());
    assert(ls == seq![headline] + els);
    assert(headline =~= t.head@ + (seq![' '] + head_word()));
    crate::text::lemma_count_before_append(t.head@, seq![' '] + head_word(), ' ');
    assert((seq![' '] + head_word())[0] == ' ');
    assert(headline.take(t.head@.len() as int) =~= t.head@);
    assert(headline.skip(t.head@.len() as int + 1) =~= head_word());
    assert(ls.drop_first() =~= els);
    lemma_read_entries(t.refs@, t.head@, Map::empty());
    assert(Map::<Seq<char>, Seq<char>>::empty().union_prefer_right(t.map()) =~= t.map());
}

/// Whether a name's entry differs between two maps: present in one only,
/// or present in both with different values.
pub open spec fn moved(old: Map<Seq<char>, Seq<char>>, new: Map<Seq<char>, Seq<char>>, n: Seq<char>) -> bool {
    opt_get(old, n) != opt_get(new, n)
}

/// One reported change carries `n`'s value before and after, and no hint.
pub open spec fn reports(c: ForeignChange, old: Map<Seq<char>, Seq<char>>, new: Map<Seq<char>, Seq<char>>) -> bool {
    &&& c.hint is None
    &&& crate::text::opt_view(c.old) == opt_get(old, c.name@)
    &&& crate::text::opt_view(c.new) == opt_get(new, c.name@)
    &&& moved(old, new, c.name@)
}

/// Where a sorted table's name `n` cannot be: before position `j` every
/// name sorts before `n`, from `j` on every name sorts after it.
proof fn lemma_absent_between(refs: Seq<(String, String)>, j: int, n: Seq<char>)
    requires
        sorted_names(refs),
        0 <= j <= refs.len(),
        forall|k: int| 0 <= k < j ==> seq_lt(#[trigger] refs[k].0@, n),
        j < refs.len() ==> seq_lt(n, refs[j].0@),
    ensures
        !pairs_map(refs).dom().contains(n),
{
    if has_name(refs, n) {
        let k = index_of_name(refs, n);
        lemma_seq_lt_irreflexive(n);
        if k < j {
            assert(seq_lt(refs[k].0@, n));
        } else if k > j {
            assert(seq_lt(refs[j].0@, refs[k].0@));
            lemma_seq_lt_transitive(n, refs[j].0@, refs[k].0@);
        }
    }
}

/// `r` lists what carries `old` to `new`: HEAD first when it moved, then
/// one change for each name whose entry differs, in name order, each with
/// its value on either side.
pub open spec fn is_diff(old: RefsTable, new: RefsTable, r: Seq<ForeignChange>) -> bool {
    let off: int = if old.head@ != new.head@ { 1 } else { 0 };
    &&& r.len() >= off
    &&& old.head@ != new.head@ ==> {
        &&& r[0].name@ == head_word()
        &&& r[0].old == Some(old.head)
        &&& r[0].new == Some(new.head)
        &&& r[0].hint is None
    }
    &&& forall|i: int| off <= i < r.len() ==> reports(#[trigger] r[i], old.map(), new.map())
    &&& forall|i: int, j: int| off <= i < j < r.len() ==> seq_lt(r[i].name@, r[j].name@)
    &&& forall|n: Seq<char>| moved(old.map(), new.map(), n) ==> exists|i: int| off <= i < r.len() && (#[trigger] r[i]).name@ == n
}

/// Two lists of names, each in strictly rising order, that hold the same
/// names are the same list.
proof fn lemma_sorted_names_unique(s1: Seq<Seq<char>>, s2: Seq<Seq<char>>)
    requires
        forall|i: int, j: int| 0 <= i < j < s1.len() ==> seq_lt(#[trigger] s1[i], #[trigger] s1[j]),
        forall|i: int, j: int| 0 <= i < j < s2.len() ==> seq_lt(#[trigger] s2[i], #[trigger] s2[j]),
        forall|x: Seq<char>| s1.contains(x) <==> s2.contains(x),
    ensures
        s1 == s2,
    decreases s1.len() + s2.len(),
{
    if s1.len() == 0 {
        if s2.len() > 0 {
            assert(s2.contains(s2[0]));
        }
        assert(s1 =~= s2);
    } else if s2.len() == 0 {
        assert(s1.contains(s1[0]));
    } else {
        assert(s1.contains(s1[0]));
        assert(s2.contains(s2[0]));
        let j = choose|j: int| 0 <= j < s2.len() && s2[j] == s1[0];
        let i = choose|i: int| 0 <= i < s1.len() && s1[i] == s2[0];
        lemma_seq_lt_irreflexive(s1[0]);
        if j > 0 {
            if i > 0 {
                lemma_seq_lt_transitive(s1[0], s1[i], s2[j]);
            }
        }
        assert(s1[0] == s2[0]);
        let t1 = s1.drop_first();
        let t2 = s2.drop_first();
        assert forall|x: Seq<char>| t1.contains(x) <==> t2.contains(x) by {
            if t1.contains(x) {
                let k = choose|k: int| 0 <= k < t1.len() && t1[k] == x;
                assert(s1[k + 1] == x);
                assert(s2.contains(x));
                let m = choose|m: int| 0 <= m < s2.len() && s2[m] == x;
                if m == 0 {
                    assert(seq_lt(s1[0], s1[k + 1]));
                    lemma_seq_lt_irreflexive(x);
                }
                assert(t2[m - 1] == x);
            }
            if t2.contains(x) {
                let k = choose|k: int| 0 <= k < t2.len() && t2[k] == x;
                assert(s2[k + 1] == x);
                assert(s1.contains(x));
                let m = choose|m: int| 0 <= m < s1.len() && s1[m] == x;
                if m == 0 {
                    assert(seq_lt(s2[0], s2[k + 1]));
                    lemma_seq_lt_irreflexive(x);
                }
                assert(t1[m - 1] == x);
            }
        }
        lemma_sorted_names_unique(t1, t2);
        assert(s1.len() == s2.len());
        assert forall|k: int| 0 <= k < s1.len() implies s1[k] == s2[k] by {
            if k > 0 {
                assert(s1[k] == t1[k - 1] && s2[k] == t2[k - 1]);
            }
        }
        assert(s1 =~= s2);
    }
}

/// The names a diff lists after HEAD.
pub open spec fn diff_names(r: Seq<ForeignChange>, off: int) -> Seq<Seq<char>> {
    r.skip(off).map_values(|c: ForeignChange| c.name@)
}

/// Swapping a diff's two tables swaps the two sides of every change: the
/// same changes, in the same order, with old and new exchanged.
pub proof fn lemma_diff_swaps(a: RefsTable, b: RefsTable, r1: Seq<ForeignChange>, r2: Seq<ForeignChange>)
    requires
        is_diff(a, b, r1),
        is_diff(b, a, r2),
    ensures
        r1.len() == r2.len(),
        forall|i: int| 0 <= i < r1.len() ==> (#[trigger] r2[i]).name@ == r1[i].name@
            && crate::text::opt_view(r2[i].old) == crate::text::opt_view(r1[i].new)
            && crate::text::opt_view(r2[i].new) == crate::text::opt_view(r1[i].old),
{
    let off: int = if a.head@ != b.head@ { 1 } else { 0 };
    let n1 = diff_names(r1, off);
    let n2 = diff_names(r2, off);
    assert forall|i: int, j: int| 0 <= i < j < n1.len() implies seq_lt(#[trigger] n1[i], #[trigger] n1[j]) by {
        assert(n1[i] == r1[i + off].name@ && n1[j] == r1[j + off].name@);
    }
    assert forall|i: int, j: int| 0 <= i < j < n2.len() implies seq_lt(#[trigger] n2[i], #[trigger] n2[j]) by {
        assert(n2[i] == r2[i + off].name@ && n2[j] == r2[j + off].name@);
    }
    assert forall|x: Seq<char>| n1.contains(x) <==> n2.contains(x) by {
        if n1.contains(x) {
            let k = choose|k: int| 0 <= k < n1.len() && n1[k] == x;
            assert(reports(r1[k + off], a.map(), b.map()));
            assert(moved(b.map(), a.map(), x));
            let m = choose|m: int| off <= m < r2.len() && (#[trigger] r2[m]).name@ == x;
            assert(n2[m - off] == x);
        }
        if n2.contains(x) {
            let k = choose|k: int| 0 <= k < n2.len() && n2[k] == x;
            assert(reports(r2[k + off], b.map(), a.map()));
            assert(moved(a.map(), b.map(), x));
            let m = choose|m: int| off <= m < r1.len() && (#[trigger] r1[m]).name@ == x;
            assert(n1[m - off] == x);
        }
    }
    lemma_sorted_names_unique(n1, n2);
    assert forall|i: int| 0 <= i < r1.len() implies (#[trigger] r2[i]).name@ == r1[i].name@
        && crate::text::opt_view(r2[i].old) == crate::text::opt_view(r1[i].new)
        && crate::text::opt_view(r2[i].new) == crate::text::opt_view(r1[i].old) by {
        if i >= off {
            assert(n1[i - off] == r1[i].name@ && n2[i - off] == r2[i].name@);
            assert(reports(r1[i], a.map(), b.map()));
            assert(reports(r2[i], b.map(), a.map()));
        }
    }
}

impl RefsTable {
    /// The differences carrying `self` (expected) to `current` (observed):
    /// HEAD first when it moved, then every name whose sha differs, was
    /// created, or was deleted, in name order.
    pub fn diff(&self, current: &RefsTable) -> (r: Vec<ForeignChange>)
        requires
            self.wf(),
            current.wf(),
        ensures
            is_diff(*self, *current, r@),
            r@.len() == 0 <==> (self.head@ == current.head@ && self.map() == current.map()),
    {
        let mut out: Vec<ForeignChange> = Vec::new();
        let head_moved = !crate::text::str_eq(self.head.as_str(), current.head.as_str());
        if head_moved {
            out.push(ForeignChange {
                name: crate::text::owned("HEAD"),
                old: Some(self.head.clone()),
                new: Some(current.head.clone()),
                hint: None,
            });
            proof {
                reveal_strlit("HEAD");
            }
        }
        let ghost off: int = if head_moved { 1 } else { 0 };
        let ghost a = self.refs@;
        let ghost b = current.refs@;
        let ghost ma = self.map();
        let ghost mb = current.map();
        let mut i: usize = 0;
        let mut j: usize = 0;
        while i < self.refs.len() || j < current.refs.len()
            invariant
                a == self.refs@,
                b == current.refs@,
                ma == pairs_map(a),
                mb == pairs_map(b),
                sorted_names(a),
                sorted_names(b),
                head_moved == (self.head@ != current.head@),
                off == (if head_moved { 1int } else { 0int }),
                i <= a.len(),
                j <= b.len(),
                out@.len() >= off,
                head_moved ==> {
                    &&& out@[0].name@ == head_word()
                    &&& out@[0].old == Some(self.head)
                    &&& out@[0].new == Some(current.head)
                    &&& out@[0].hint is None
                },
                forall|k: int| 0 <= k < i ==> j < b.len() ==> seq_lt(#[trigger] a[k].0@, b[j as int].0@),
                forall|k: int| 0 <= k < j ==> i < a.len() ==> seq_lt(#[trigger] b[k].0@, a[i as int].0@),
                forall|p: int| off <= p < out@.len() ==> reports(#[trigger] out@[p], ma, mb),
                forall|p: int| off <= p < out@.len() ==> i < a.len() ==> seq_lt((#[trigger] out@[p]).name@, a[i as int].0@),
                forall|p: int| off <= p < out@.len() ==> j < b.len() ==> seq_lt((#[trigger] out@[p]).name@, b[j as int].0@),
                forall|p: int, q: int| off <= p < q < out@.len() ==> seq_lt(out@[p].name@, out@[q].name@),
                forall|n: Seq<char>| (has_name(a.take(i as int), n) || has_name(b.take(j as int), n)) && moved(ma, mb, n) ==> exists|p: int| off <= p < out@.len() && (#[trigger] out@[p]).name@ == n,
            decreases a.len() + b.len() - i - j,
        {
            let ghost prev = out@;
            let ghost (pi, pj) = (i, j);
            let take_old: bool;
            let take_new: bool;
            if i < self.refs.len() && j < current.refs.len() {
                let ka = crate::text::chars_of(self.refs[i].0.as_str());
                let kb = crate::text::chars_of(current.refs[j].0.as_str());
                proof {
                    lemma_seq_lt_total(ka@, kb@);
                }
                if crate::text::chars_lt(&ka, &kb) {
                    take_old = true;
                    take_new = false;
                } else if crate::text::chars_lt(&kb, &ka) {
                    take_old = false;
                    take_new = true;
                } else {
                    take_old = true;
                    take_new = true;
                }
            } else if i < self.refs.len() {
                take_old = true;
                take_new = false;
            } else {
                take_old = false;
                take_new = true;
            }
            // The name this step settles, and its entries on either side.
            let ghost n: Seq<char> = if take_old { a[i as int].0@ } else { b[j as int].0@ };
            proof {
                if take_old && take_new {
                    lemma_seq_lt_total(a[i as int].0@, b[j as int].0@);
                    assert(a[i as int].0@ == b[j as int].0@);
                }
                if take_old {
                    lemma_map_at(a, i as int);
                } else {
                    assert forall|k: int| 0 <= k < i implies seq_lt(#[trigger] a[k].0@, n) by {}
                    lemma_absent_between(a, i as int, n);
                }
                if take_new {
                    lemma_map_at(b, j as int);
                } else {
                    assert forall|k: int| 0 <= k < j implies seq_lt(#[trigger] b[k].0@, n) by {}
                    lemma_absent_between(b, j as int, n);
                }
            }
            let differs: bool;
            if take_old && take_new {
                differs = !crate::text::str_eq(self.refs[i].1.as_str(), current.refs[j].1.as_str());
            } else {
                differs = true;
            }
            assert(differs == moved(ma, mb, n));
            if differs {
                let name = if take_old { self.refs[i].0.clone() } else { current.refs[j].0.clone() };
                let old = if take_old { Some(self.refs[i].1.clone()) } else { None };
                let new = if take_new { Some(current.refs[j].1.clone()) } else { None };
                out.push(ForeignChange { name, old, new, hint: None });
            }
            if take_old {
                i += 1;
            }
            if take_new {
                j += 1;
            }
            proof {
                assert forall|k: int| 0 <= k < i implies j < b.len() ==> seq_lt(#[trigger] a[k].0@, b[j as int].0@) by {
                    if j < b.len() {
                        if k < pi {
                            if take_new {
                                assert(seq_lt(b[pj as int].0@, b[j as int].0@));
                                if take_old {
                                    assert(seq_lt(a[k].0@, a[pi as int].0@));
                                    lemma_seq_lt_transitive(a[k].0@, a[pi as int].0@, b[j as int].0@);
                                } else {
                                    lemma_seq_lt_transitive(a[k].0@, b[pj as int].0@, b[j as int].0@);
                                }
                            }
                        } else if take_new {
                            assert(seq_lt(b[pj as int].0@, b[j as int].0@));
                        }
                    }
                }
                assert forall|k: int| 0 <= k < j implies i < a.len() ==> seq_lt(#[trigger] b[k].0@, a[i as int].0@) by {
                    if i < a.len() {
                        if k < pj {
                            if take_old {
                                assert(seq_lt(a[pi as int].0@, a[i as int].0@));
                                if take_new {
                                    assert(seq_lt(b[k].0@, b[pj as int].0@));
                                    lemma_seq_lt_transitive(b[k].0@, b[pj as int].0@, a[i as int].0@);
                                } else {
                                    lemma_seq_lt_transitive(b[k].0@, a[pi as int].0@, a[i as int].0@);
                                }
                            }
                        } else if take_old {
                            assert(seq_lt(a[pi as int].0@, a[i as int].0@));
                        }
                    }
                }
                assert forall|p: int| off <= p < out@.len() implies i < a.len() ==> seq_lt((#[trigger] out@[p]).name@, a[i as int].0@) by {
                    if i < a.len() {
                        if take_old {
                            assert(seq_lt(a[pi as int].0@, a[i as int].0@));
                            if p < prev.len() {
                                assert(out@[p] == prev[p]);
                                lemma_seq_lt_transitive(prev[p].name@, a[pi as int].0@, a[i as int].0@);
                            }
                        } else if p < prev.len() {
                            assert(out@[p] == prev[p]);
                        }
                    }
                }
                assert forall|p: int| off <= p < out@.len() implies j < b.len() ==> seq_lt((#[trigger] out@[p]).name@, b[j as int].0@) by {
                    if j < b.len() {
                        if take_new {
                            assert(seq_lt(b[pj as int].0@, b[j as int].0@));
                            if p < prev.len() {
                                assert(out@[p] == prev[p]);
                                lemma_seq_lt_transitive(prev[p].name@, b[pj as int].0@, b[j as int].0@);
                            }
                        } else if p < prev.len() {
                            assert(out@[p] == prev[p]);
                        }
                    }
                }
                assert forall|p: int, q: int| off <= p < q < out@.len() implies seq_lt(out@[p].name@, out@[q].name@) by {
                    if q >= prev.len() {
                        assert(out@[p] == prev[p]);
                        if take_old {
                            assert(seq_lt(prev[p].name@, a[pi as int].0@));
                        } else {
                            assert(seq_lt(prev[p].name@, b[pj as int].0@));
                        }
                    } else {
                        assert(out@[p] == prev[p] && out@[q] == prev[q]);
                    }
                }
                assert forall|p: int| off <= p < out@.len() implies reports(#[trigger] out@[p], ma, mb) by {
                    if p < prev.len() {
                        assert(out@[p] == prev[p]);
                    }
                }
                assert forall|m: Seq<char>| (has_name(a.take(i as int), m) || has_name(b.take(j as int), m)) && moved(ma, mb, m) implies exists|p: int| off <= p < out@.len() && (#[trigger] out@[p]).name@ == m by {
                    if m == n {
                        assert(out@[out@.len() - 1].name@ == m);
                    } else {
                        if has_name(a.take(i as int), m) {
                            let k = index_of_name(a.take(i as int), m);
                            assert(a.take(i as int)[k] == a[k]);
                            if k < pi {
                                assert(a.take(pi as int)[k] == a[k]);
                            }
                        }
                        if has_name(b.take(j as int), m) {
                            let k = index_of_name(b.take(j as int), m);
                            assert(b.take(j as int)[k] == b[k]);
                            if k < pj {
                                assert(b.take(pj as int)[k] == b[k]);
                            }
                        }
                        let p = choose|p: int| off <= p < prev.len() && (#[trigger] prev[p]).name@ == m;
                        assert(out@[p] == prev[p]);
                    }
                }
            }
        }
        proof {
            assert(a.take(a.len() as int) =~= a);
            assert(b.take(b.len() as int) =~= b);
            assert forall|m: Seq<char>| moved(ma, mb, m) implies exists|p: int| off <= p < out@.len() && (#[trigger] out@[p]).name@ == m by {
                if !has_name(a, m) && !has_name(b, m) {
                    assert(!ma.dom().contains(m));
                    assert(!mb.dom().contains(m));
                }
            }
            if out@.len() == 0 {
                assert forall|m: Seq<char>| ma.dom().contains(m) == mb.dom().contains(m) by {
                    if moved(ma, mb, m) {
                        let p = choose|p: int| off <= p < out@.len() && (#[trigger] out@[p]).name@ == m;
                    }
                }
                assert forall|m: Seq<char>| ma.dom().contains(m) implies ma[m] == mb[m] by {
                    if moved(ma, mb, m) {
                        let p = choose|p: int| off <= p < out@.len() && (#[trigger] out@[p]).name@ == m;
                    }
                }
                assert(ma =~= mb);
            }
            if self.head@ == current.head@ && ma == mb && out@.len() > 0 {
                assert(reports(out@[0], ma, mb));
            }
        }
        out
    }
}

/// The branch HEAD stands on, when it stands on one.
pub open spec fn branch_of_head(head: Seq<char>) -> Option<Seq<char>> {
    if "ref:refs/heads/"@.is_prefix_of(head) {
        Some(head.skip("ref:refs/heads/"@.len() as int))
    } else {
        None
    }
}

/// The branch a table's HEAD is on, if it is on one.
pub fn current_branch(table: &RefsTable) -> (r: Option<String>)
    ensures
        crate::text::opt_view(r) == branch_of_head(table.head@),
{
    crate::text::strip_prefix(table.head.as_str(), "ref:refs/heads/")
}

/// HEAD's transition between two tables, when it moved.
pub fn head_transition(old: &RefsTable, new: &RefsTable) -> (r: Option<(String, String)>)
    ensures
        r is Some <==> old.head@ != new.head@,
        r matches Some((a, b)) ==> a == old.head && b == new.head,
{
    if crate::text::str_eq(old.head.as_str(), new.head.as_str()) {
        None
    } else {
        Some((old.head.clone(), new.head.clone()))
    }
}

/// The object ids a list of values spells, skipping what is not one.
pub open spec fn parsed_ids(vals: Seq<Seq<char>>) -> Seq<Seq<u8>>
    decreases vals.len(),
{
    if vals.len() == 0 {
        seq![]
    } else {
        let v = vals[0];
        let head: Seq<Seq<u8>> = if v.len() == 40 && crate::hex::all_hex(v) {
            seq![crate::hex::bytes_of_hex(v)]
        } else {
            seq![]
        };
        head + parsed_ids(vals.drop_first())
    }
}

proof fn lemma_parsed_one(v: Seq<char>)
    ensures
        parsed_ids(seq![v]) == (if v.len() == 40 && crate::hex::all_hex(v) {
            seq![crate::hex::bytes_of_hex(v)]
        } else {
            Seq::<Seq<u8>>::empty()
        }),
{
    assert(seq![v].drop_first() =~= Seq::<Seq<char>>::empty());
    assert(parsed_ids(Seq::<Seq<char>>::empty()) =~= Seq::<Seq<u8>>::empty());
    assert(seq![v][0] == v);
    if v.len() == 40 && crate::hex::all_hex(v) {
        assert(parsed_ids(seq![v]) =~= seq![crate::hex::bytes_of_hex(v)]);
    } else {
        assert(parsed_ids(seq![v]) =~= Seq::<Seq<u8>>::empty());
    }
}

proof fn lemma_parsed_ids_push(vals: Seq<Seq<char>>, v: Seq<char>)
    ensures
        parsed_ids(vals.push(v)) == parsed_ids(vals) + parsed_ids(seq![v]),
    decreases vals.len(),
{
    if vals.len() > 0 {
        assert(vals.push(v).drop_first() =~= vals.drop_first().push(v));
        lemma_parsed_ids_push(vals.drop_first(), v);
        assert(parsed_ids(vals.push(v)) =~= parsed_ids(vals) + parsed_ids(seq![v]));
    } else {
        assert(vals.push(v) =~= seq![v]);
        assert(parsed_ids(vals) =~= Seq::<Seq<u8>>::empty());
        assert(parsed_ids(vals.push(v)) =~= parsed_ids(vals) + parsed_ids(seq![v]));
    }
}

/// Every sha a table references, as pin candidates: the refs' values in
/// name order, then HEAD, each that spells an object id.
pub fn table_pins(table: &RefsTable) -> (r: Vec<crate::oid::Oid>)
    ensures
        r@.map_values(|o: crate::oid::Oid| o@) == parsed_ids(
            table.refs@.map_values(|e: (String, String)| e.1@).push(table.head@),
        ),
{
    let mut pins: Vec<crate::oid::Oid> = Vec::new();
    let ghost vals = table.refs@.map_values(|e: (String, String)| e.1@);
    let mut i: usize = 0;
    while i < table.refs.len()
        invariant
            i <= table.refs@.len(),
            vals == table.refs@.map_values(|e: (String, String)| e.1@),
            pins@.map_values(|o: crate::oid::Oid| o@) == parsed_ids(vals.take(i as int)),
        decreases table.refs.len() - i,
    {
        let ghost before = pins@.map_values(|o: crate::oid::Oid| o@);
        proof {
            assert(vals.take(i + 1) =~= vals.take(i as int).push(vals[i as int]));
            lemma_parsed_ids_push(vals.take(i as int), vals[i as int]);
            lemma_parsed_one(vals[i as int]);
            assert(vals[i as int] == table.refs@[i as int].1@);
        }
        match crate::oid::Oid::from_hex(table.refs[i].1.as_str()) {
            Some(id) => {
                pins.push(id);
                assert(pins@.map_values(|o: crate::oid::Oid| o@) =~= before.push(id@));
            },
            None => {},
        }
        i += 1;
    }
    proof {
        assert(vals.take(vals.len() as int) =~= vals);
        lemma_parsed_ids_push(vals, table.head@);
        lemma_parsed_one(table.head@);
    }
    let ghost before = pins@.map_values(|o: crate::oid::Oid| o@);
    match crate::oid::Oid::from_hex(table.head.as_str()) {
        Some(id) => {
            pins.push(id);
            assert(pins@.map_values(|o: crate::oid::Oid| o@) =~= before.push(id@));
        },
        None => {},
    }
    pins
}

/// The word an entry's kind is written as.
pub open spec fn kind_word_spec(kind: OpKind) -> Seq<char> {
    match kind {
        OpKind::Op => "op"@,
        OpKind::Foreign => "foreign"@,
        OpKind::Note => "note"@,
    }
}

/// The word an entry's kind is written as: `op`, `foreign` or `note`.
pub fn kind_word(kind: OpKind) -> (r: &'static str)
    ensures
        r@ == kind_word_spec(kind),
{
    match kind {
        OpKind::Op => "op",
        OpKind::Foreign => "foreign",
        OpKind::Note => "note",
    }
}

/// A journal entry's commit message: `<kind>: <summary>` and a newline.
pub fn entry_message(record: &OpRecord) -> (r: String)
    ensures
        r@ == kind_word_spec(record.kind) + ": "@ + record.summary@ + "\n"@,
{
    let head = crate::text::concat(kind_word(record.kind), ": ");
    let body = crate::text::concat(head.as_str(), record.summary.as_str());
    crate::text::concat(body.as_str(), "\n")
}

/// The ids of a list, as bytes.
pub open spec fn ids_of(v: Seq<crate::oid::Oid>) -> Seq<Seq<u8>> {
    v.map_values(|o: crate::oid::Oid| o@)
}

/// An entry's parents: the previous entry first, then each pin once, in
/// the order given.
pub fn pin_parents(prev: Option<crate::oid::Oid>, pins: &Vec<crate::oid::Oid>) -> (r: Vec<crate::oid::Oid>)
    ensures
        prev matches Some(p) ==> r@.len() > 0 && r@[0]@ == p@,
        forall|i: int, j: int| 0 <= i < j < r@.len() ==> r@[i]@ != r@[j]@,
        forall|i: int| 0 <= i < r@.len() ==> ((prev matches Some(p) && p@ == r@[i]@) || ids_of(pins@).contains(#[trigger] r@[i]@)),
        forall|i: int| 0 <= i < pins@.len() ==> ids_of(r@).contains(#[trigger] pins@[i]@),
{
    let mut out: Vec<crate::oid::Oid> = Vec::new();
    match prev {
        Some(p) => out.push(p),
        None => {},
    }
    let mut i: usize = 0;
    while i < pins.len()
        invariant
            i <= pins@.len(),
            prev matches Some(p) ==> out@.len() > 0 && out@[0]@ == p@,
            forall|a: int, b: int| 0 <= a < b < out@.len() ==> out@[a]@ != out@[b]@,
            forall|a: int| 0 <= a < out@.len() ==> ((prev matches Some(p) && p@ == out@[a]@) || ids_of(pins@).contains(#[trigger] out@[a]@)),
            forall|a: int| 0 <= a < i ==> ids_of(out@).contains(#[trigger] pins@[a]@),
        decreases pins.len() - i,
    {
        let mut seen = false;
        let mut k: usize = 0;
        while k < out.len()
            invariant
                k <= out@.len(),
                i < pins@.len(),
                seen == exists|a: int| 0 <= a < k && out@[a]@ == pins@[i as int]@,
            decreases out.len() - k,
        {
            if out[k].same(&pins[i]) {
                seen = true;
            }
            k += 1;
        }
        let ghost before = out@;
        if !seen {
            out.push(pins[i]);
            proof {
                assert(ids_of(pins@)[i as int] == pins@[i as int]@);
            }
        }
        proof {
            assert forall|a: int| 0 <= a < i + 1 implies ids_of(out@).contains(#[trigger] pins@[a]@) by {
                if a < i {
                    let b = choose|b: int| 0 <= b < ids_of(before).len() && ids_of(before)[b] == pins@[a]@;
                    assert(ids_of(out@)[b] == ids_of(before)[b]);
                } else if seen {
                    let b = choose|b: int| 0 <= b < k && out@[b]@ == pins@[i as int]@;
                    assert(ids_of(out@)[b] == out@[b]@);
                } else {
                    assert(ids_of(out@)[out@.len() - 1] == pins@[i as int]@);
                }
            }
            assert forall|a: int| 0 <= a < out@.len() implies ((prev matches Some(p) && p@ == out@[a]@) || ids_of(pins@).contains(#[trigger] out@[a]@)) by {
                if a >= before.len() {
                    assert(ids_of(pins@)[i as int] == out@[a]@);
                } else {
                    assert(out@[a] == before[a]);
                }
            }
        }
        i += 1;
    }
    out
}

/// The journal tip as a reconciliation pass finds it.
pub enum TipState {
    /// No journal yet.
    Absent,
    /// A tip that could not be read: its id, and why.
    Unreadable { id: String, error: String },
    /// The tip entry's id, its record and its ref table.
    Read { id: String, record: OpRecord, refs: RefsTable },
}

/// What one reconciliation pass does: the entry it appends (its table is
/// the observed one), the unreadable tip it parks first, and its report.
pub struct ReconcilePlan {
    /// The journal did not exist, or was parked, and is initialized.
    pub bootstrapped: bool,
    /// The tip was unreadable; the chain is parked and re-initialized.
    pub reinitialized: bool,
    /// The unreadable tip to park at the trash ref before re-init.
    pub park: Option<String>,
    /// Foreign motion absorbed by this pass (empty = clean).
    pub foreign: Vec<ForeignChange>,
    pub warnings: Vec<String>,
    /// The entry to append; none on the clean path.
    pub record: Option<OpRecord>,
}

/// A record as `OpRecord::new` makes it with `branch` set, whatever it
/// links back to.
pub open spec fn fresh_fields(r: OpRecord, kind: OpKind, verb: Seq<char>, summary: Seq<char>, time: i64, branch: Option<Seq<char>>) -> bool {
    &&& r.version == 1
    &&& r.kind == kind
    &&& r.verb@ == verb
    &&& r.summary@ == summary
    &&& r.argv@.len() == 0
    &&& r.time == time
    &&& crate::text::opt_view(r.branch) == branch
    &&& r.pre_snapshot is None
    &&& r.index_tree is None
    &&& r.stash@.len() == 0
    &&& r.description is None
    &&& r.undo_of is None
    &&& r.held is None
    &&& r.resolving is None
    &&& r.resolve_session is None
}

/// A record as `OpRecord::new` makes it, with `branch` set and nothing else.
pub open spec fn fresh_record(r: OpRecord, kind: OpKind, verb: Seq<char>, summary: Seq<char>, time: i64, branch: Option<Seq<char>>) -> bool {
    &&& fresh_fields(r, kind, verb, summary, time, branch)
    &&& r.prev is None
}

/// The summary of the entry that initializes the journal.
pub open spec fn init_summary() -> Seq<char> {
    "journal initialized from observed state; earlier operations not undoable"@
}

/// An op entry whose planned state never materialized: every change found
/// is HEAD, or a ref the op meant to move that still holds its old value.
pub open spec fn incomplete_spec(record: OpRecord, foreign: Seq<ForeignChange>) -> bool {
    &&& record.kind == OpKind::Op
    &&& forall|i: int| 0 <= i < foreign.len() ==> {
        ||| (#[trigger] foreign[i]).name@ == head_word()
        ||| exists|k: int| 0 <= k < record.refs@.len() && (#[trigger] record.refs@[k]).name@ == foreign[i].name@
            && crate::text::opt_view(record.refs@[k].old) == crate::text::opt_view(foreign[i].new)
    }
}

/// The summary of an entry absorbing `n` changes.
pub open spec fn absorb_summary_spec(n: nat, incomplete: bool) -> Seq<char> {
    if incomplete {
        "absorbed "@ + crate::text::decimal(n) + " ref change(s); previous op may not have completed"@
    } else {
        "absorbed "@ + crate::text::decimal(n) + " foreign ref change(s)"@
    }
}

/// Each transition carries its change's name and ends.
pub open spec fn transitions_of(rs: Seq<RefTransition>, fs: Seq<ForeignChange>) -> bool {
    &&& rs.len() == fs.len()
    &&& forall|i: int| 0 <= i < rs.len() ==> (#[trigger] rs[i]).name == fs[i].name && rs[i].old == fs[i].old && rs[i].new == fs[i].new
}

fn option_string(o: &Option<String>) -> (r: Option<String>)
    ensures
        r == *o,
{
    match o {
        Some(s) => Some(s.clone()),
        None => None,
    }
}

fn opt_eq(a: &Option<String>, b: &Option<String>) -> (r: bool)
    ensures
        r == (crate::text::opt_view(*a) == crate::text::opt_view(*b)),
{
    match (a, b) {
        (Some(x), Some(y)) => crate::text::str_eq(x.as_str(), y.as_str()),
        (None, None) => true,
        _ => false,
    }
}

/// Whether the op the tip records never completed: see `incomplete_spec`.
pub fn is_incomplete(record: &OpRecord, foreign: &Vec<ForeignChange>) -> (r: bool)
    ensures
        r == incomplete_spec(*record, foreign@),
{
    if record.kind != OpKind::Op {
        return false;
    }
    let mut i: usize = 0;
    while i < foreign.len()
        invariant
            record.kind == OpKind::Op,
            i <= foreign@.len(),
            forall|a: int| 0 <= a < i ==> {
                ||| (#[trigger] foreign@[a]).name@ == head_word()
                ||| exists|k: int| 0 <= k < record.refs@.len() && (#[trigger] record.refs@[k]).name@ == foreign@[a].name@
                    && crate::text::opt_view(record.refs@[k].old) == crate::text::opt_view(foreign@[a].new)
            },
        decreases foreign.len() - i,
    {
        let c = &foreign[i];
        proof {
            reveal_strlit("HEAD");
            assert("HEAD"@ =~= head_word());
        }
        let mut ok = crate::text::str_eq(c.name.as_str(), "HEAD");
        let mut k: usize = 0;
        while k < record.refs.len() && !ok
            invariant
                k <= record.refs@.len(),
                i < foreign@.len(),
                *c == foreign@[i as int],
                ok ==> (c.name@ == head_word() || exists|m: int| 0 <= m < record.refs@.len() && (#[trigger] record.refs@[m]).name@ == c.name@
                    && crate::text::opt_view(record.refs@[m].old) == crate::text::opt_view(c.new)),
                !ok ==> c.name@ != head_word() && forall|m: int| 0 <= m < k ==> !((#[trigger] record.refs@[m]).name@ == c.name@
                    && crate::text::opt_view(record.refs@[m].old) == crate::text::opt_view(c.new)),
            decreases record.refs.len() - k,
        {
            let t = &record.refs[k];
            if crate::text::str_eq(t.name.as_str(), c.name.as_str()) && opt_eq(&t.old, &c.new) {
                ok = true;
            }
            k += 1;
        }
        if !ok {
            return false;
        }
        i += 1;
    }
    true
}

/// The summary of an entry absorbing `n` changes: `absorbed <n> foreign
/// ref change(s)`, or, when the previous op did not complete, `absorbed
/// <n> ref change(s); previous op may not have completed`.
pub fn absorb_summary(n: u64, incomplete: bool) -> (r: String)
    ensures
        r@ == absorb_summary_spec(n as nat, incomplete),
{
    let count = crate::text::decimal_string(n);
    let head = crate::text::concat("absorbed ", count.as_str());
    if incomplete {
        crate::text::concat(head.as_str(), " ref change(s); previous op may not have completed")
    } else {
        crate::text::concat(head.as_str(), " foreign ref change(s)")
    }
}

fn init_record(observed: &RefsTable, now: i64) -> (r: OpRecord)
    ensures
        fresh_record(r, OpKind::Note, "init"@, init_summary(), now, branch_of_head(observed.head@)),
        r.refs@.len() == 0,
        r.head is None,
{
    let mut record = OpRecord::new(
        OpKind::Note,
        "init",
        "journal initialized from observed state; earlier operations not undoable",
        now,
    );
    record.branch = current_branch(observed);
    record
}

/// Reconcile the journal with what was observed: initialize it when there
/// is none, park an unreadable tip and initialize afresh, and otherwise
/// absorb every difference between the tip's table and the observed one
/// as one `foreign` entry whose `prev` is the tip it was read from. The
/// clean path appends nothing.
pub fn reconcile_plan(tip: &TipState, observed: &RefsTable, now: i64) -> (r: ReconcilePlan)
    requires
        observed.wf(),
        tip matches TipState::Read { refs, .. } ==> refs.wf(),
    ensures
        match *tip {
            TipState::Absent => {
                &&& r.bootstrapped && !r.reinitialized
                &&& r.park is None
                &&& r.foreign@.len() == 0
                &&& r.warnings@.len() == 0
                &&& r.record matches Some(rec) && fresh_record(rec, OpKind::Note, "init"@, init_summary(), now, branch_of_head(observed.head@))
                    && rec.refs@.len() == 0 && rec.head is None
            },
            TipState::Unreadable { id, error } => {
                &&& r.bootstrapped && r.reinitialized
                &&& r.park == Some(id)
                &&& r.foreign@.len() == 0
                &&& r.warnings@.len() == 1
                &&& r.warnings@[0]@ == "journal tip unreadable ("@ + error@ + "); chain parked at "@ + JOURNAL_TRASH_REF@
                &&& r.record matches Some(rec) && fresh_record(rec, OpKind::Note, "init"@, init_summary(), now, branch_of_head(observed.head@))
                    && rec.refs@.len() == 0 && rec.head is None
            },
            TipState::Read { id, record, refs } => {
                &&& !r.bootstrapped && !r.reinitialized
                &&& r.park is None
                &&& r.warnings@.len() == 0
                &&& is_diff(refs, *observed, r.foreign@)
                &&& r.foreign@.len() == 0 ==> r.record is None
                &&& r.foreign@.len() > 0 ==> (r.record matches Some(rec) && crate::text::opt_view(rec.prev) == Some(id@) && fresh_fields(
                    rec,
                    OpKind::Foreign,
                    "reconcile"@,
                    absorb_summary_spec(r.foreign@.len(), incomplete_spec(record, r.foreign@)),
                    now,
                    branch_of_head(observed.head@),
                ) && transitions_of(rec.refs@, r.foreign@)
                  && (rec.head is Some <==> refs.head@ != observed.head@)
                  && (rec.head matches Some((a, b)) ==> a == refs.head && b == observed.head))
            },
        },
{
    match tip {
        TipState::Absent => ReconcilePlan {
            bootstrapped: true,
            reinitialized: false,
            park: None,
            foreign: Vec::new(),
            warnings: Vec::new(),
            record: Some(init_record(observed, now)),
        },
        TipState::Unreadable { id, error } => {
            let a = crate::text::concat("journal tip unreadable (", error.as_str());
            let b = crate::text::concat(a.as_str(), "); chain parked at ");
            let w = crate::text::concat(b.as_str(), JOURNAL_TRASH_REF);
            let mut warnings: Vec<String> = Vec::new();
            warnings.push(w);
            ReconcilePlan {
                bootstrapped: true,
                reinitialized: true,
                park: Some(id.clone()),
                foreign: Vec::new(),
                warnings,
                record: Some(init_record(observed, now)),
            }
        },
        TipState::Read { id, record, refs } => {
            let foreign = refs.diff(observed);
            if foreign.len() == 0 {
                return ReconcilePlan {
                    bootstrapped: false,
                    reinitialized: false,
                    park: None,
                    foreign,
                    warnings: Vec::new(),
                    record: None,
                };
            }
            let incomplete = is_incomplete(record, &foreign);
            let summary = absorb_summary(foreign.len() as u64, incomplete);
            let mut rec = OpRecord::new(OpKind::Foreign, "reconcile", summary.as_str(), now);
            rec.branch = current_branch(observed);
            let mut i: usize = 0;
            while i < foreign.len()
                invariant
                    i <= foreign@.len(),
                    rec.refs@.len() == i,
                    forall|k: int| 0 <= k < i ==> (#[trigger] rec.refs@[k]).name == foreign@[k].name && rec.refs@[k].old == foreign@[k].old && rec.refs@[k].new == foreign@[k].new,
                    fresh_record(rec, OpKind::Foreign, "reconcile"@, summary@, now, branch_of_head(observed.head@)),
                decreases foreign.len() - i,
            {
                let t = RefTransition {
                    name: foreign[i].name.clone(),
                    old: option_string(&foreign[i].old),
                    new: option_string(&foreign[i].new),
                };
                rec.refs.push(t);
                i += 1;
            }
            rec.head = head_transition(refs, observed);
            rec.prev = Some(id.clone());
            ReconcilePlan {
                bootstrapped: false,
                reinitialized: false,
                park: None,
                foreign,
                warnings: Vec::new(),
                record: Some(rec),
            }
        },
    }
}

/// Parts joined by `sep`.
pub open spec fn join_with(parts: Seq<Seq<char>>, sep: Seq<char>) -> Seq<char>
    decreases parts.len(),
{
    if parts.len() == 0 {
        Seq::empty()
    } else if parts.len() == 1 {
        parts[0]
    } else {
        join_with(parts.drop_last(), sep) + sep + parts.last()
    }
}

/// The entries of a chain whose full id starts with `prefix`, in chain order.
pub open spec fn op_matches(chain: Seq<crate::oid::Oid>, prefix: Seq<char>) -> Seq<crate::oid::Oid> {
    chain.filter(|o: crate::oid::Oid| prefix.is_prefix_of(crate::hex::hex_of(o@)))
}

/// Resolve an op-id prefix against the journal chain, newest first: the
/// one entry whose id starts with it; an error naming the prefix when none
/// does, and one listing every match when several do.
pub fn match_op_prefix(chain: &Vec<crate::oid::Oid>, prefix: &str) -> (r: Result<crate::oid::Oid>)
    ensures
        ({
            let ms = op_matches(chain@, prefix@);
            &&& ms.len() == 0 ==> (r matches Err(Error::Repo(m)) && m@ == "no journal entry matching "@ + prefix@)
            &&& ms.len() == 1 ==> r == Ok::<crate::oid::Oid, Error>(ms[0])
            &&& ms.len() > 1 ==> (r matches Err(Error::Repo(m)) && m@ == "ambiguous op prefix "@ + prefix@ + ": "@
                + join_with(ms.map_values(|o: crate::oid::Oid| crate::hex::hex_of(o@)), ", "@))
        }),
{
    let mut found: Vec<crate::oid::Oid> = Vec::new();
    let mut i: usize = 0;
    while i < chain.len()
        invariant
            i <= chain@.len(),
            found@ == op_matches(chain@.take(i as int), prefix@),
        decreases chain.len() - i,
    {
        let h = chain[i].to_hex();
        proof {
            assert(chain@.take(i + 1) =~= chain@.take(i as int).push(chain@[i as int]));
            chain@.take(i as int).lemma_filter_push(chain@[i as int], |o: crate::oid::Oid| prefix@.is_prefix_of(crate::hex::hex_of(o@)));
        }
        if crate::text::str_starts_with(h.as_str(), prefix) {
            found.push(chain[i]);
        }
        i += 1;
    }
    proof {
        assert(chain@.take(chain@.len() as int) =~= chain@);
    }
    if found.len() == 0 {
        return Err(Error::Repo(crate::text::concat("no journal entry matching ", prefix)));
    }
    if found.len() == 1 {
        return Ok(found[0]);
    }
    let ghost views = found@.map_values(|o: crate::oid::Oid| crate::hex::hex_of(o@));
    let mut list: Vec<char> = Vec::new();
    let mut k: usize = 0;
    while k < found.len()
        invariant
            k <= found@.len(),
            views == found@.map_values(|o: crate::oid::Oid| crate::hex::hex_of(o@)),
            list@ == join_with(views.take(k as int), ", "@),
        decreases found.len() - k,
    {
        if k > 0 {
            crate::text::extend_chars(&mut list, ", ");
        }
        let h = found[k].to_hex();
        crate::text::extend_chars(&mut list, h.as_str());
        proof {
            assert(views.take(k + 1).drop_last() =~= views.take(k as int));
            if k == 0 {
                assert(list@ =~= views[0]);
            }
        }
        k += 1;
    }
    proof {
        assert(views.take(found@.len() as int) =~= views);
    }
    let head = crate::text::concat("ambiguous op prefix ", prefix);
    let mid = crate::text::concat(head.as_str(), ": ");
    Err(Error::Repo(crate::text::concat(mid.as_str(), crate::text::string_of(&list).as_str())))
}

/// The shared preamble of every mutating verb: the time it runs at, the
/// snapshot taken before it, and what reconciling found.
#[derive(Debug, Clone)]
pub struct VerbContext {
    pub now: i64,
    /// The pre-verb snapshot, when one was created (a clean tree makes none).
    pub pre_snapshot: Option<String>,
    pub reconcile: crate::model::ReconcileReport,
}

/// What taking the pre-verb snapshot came to.
#[derive(Debug, Clone, PartialEq, Eq)]
pub enum Taken {
    Created { id: String },
    /// The tree was already on the timeline.
    NoOp,
    /// A concurrent snapshot holds the log.
    Contended,
}

/// The pre-verb snapshot a verb records: the new one's id, none for a tree
/// already on the timeline, and an abort when another snapshot is running,
/// before anything is written.
pub fn pre_snapshot(taken: Taken) -> (r: Result<Option<String>>)
    ensures
        match taken {
            Taken::Created { id } => r == Ok::<Option<String>, Error>(Some(id)),
            Taken::NoOp => r == Ok::<Option<String>, Error>(None),
            Taken::Contended => r matches Err(Error::Repo(m)) && m@
                == "a concurrent ff snapshot is in progress; aborted (nothing was written)"@,
        },
{
    match taken {
        Taken::Created { id } => Ok(Some(id)),
        Taken::NoOp => Ok(None),
        Taken::Contended => Err(
            Error::msg("a concurrent ff snapshot is in progress; aborted (nothing was written)"),
        ),
    }
}

/// One decoded journal entry: its commit, the record and the ref table it
/// carries, the index tree it pins, and the entry before it.
#[derive(Debug, Clone)]
pub struct Entry {
    pub id: crate::oid::Oid,
    pub record: OpRecord,
    pub refs: RefsTable,
    pub index_tree: crate::oid::Oid,
    /// The previous entry, if any.
    pub prev: Option<crate::oid::Oid>,
}

/// The id that the last entry of a tree listing called `name` points at;
/// `None` when no entry has that name.
pub open spec fn last_named(entries: Seq<(String, crate::oid::Oid)>, name: Seq<char>) -> Option<crate::oid::Oid>
    decreases entries.len(),
{
    if entries.len() == 0 {
        None
    } else if entries.last().0@ == name {
        Some(entries.last().1)
    } else {
        last_named(entries.drop_last(), name)
    }
}

/// A journal entry's tree, read from its listing: the `op.json` blob, the
/// `refs` blob and the `index` tree, each the last of that name. A part
/// that is missing is an error naming the entry (`id`, its hex), the first
/// missing one in that order.
pub fn entry_parts(id: &str, entries: &Vec<(String, crate::oid::Oid)>) -> (r: Result<(crate::oid::Oid, crate::oid::Oid, crate::oid::Oid)>)
    ensures
        match (last_named(entries@, "op.json"@), last_named(entries@, "refs"@), last_named(entries@, "index"@)) {
            (Some(o), Some(f), Some(x)) => r == Ok::<(crate::oid::Oid, crate::oid::Oid, crate::oid::Oid), Error>((o, f, x)),
            (None, _, _) => r matches Err(e) && e matches Error::Repo(m)
                && m@ == "journal entry "@ + id@ + " has no op.json"@,
            (Some(_), None, _) => r matches Err(e) && e matches Error::Repo(m)
                && m@ == "journal entry "@ + id@ + " has no refs blob"@,
            (Some(_), Some(_), None) => r matches Err(e) && e matches Error::Repo(m)
                && m@ == "journal entry "@ + id@ + " has no index tree"@,
        },
{
    let mut op: Option<crate::oid::Oid> = None;
    let mut refs: Option<crate::oid::Oid> = None;
    let mut index: Option<crate::oid::Oid> = None;
    let mut i: usize = 0;
    while i < entries.len()
        invariant
            i <= entries.len(),
            op == last_named(entries@.subrange(0, i as int), "op.json"@),
            refs == last_named(entries@.subrange(0, i as int), "refs"@),
            index == last_named(entries@.subrange(0, i as int), "index"@),
        decreases entries.len() - i,
    {
        let name = entries[i].0.as_str();
        proof {
            reveal_strlit("op.json");
            reveal_strlit("refs");
            reveal_strlit("index");
            assert("op.json"@.len() == 7 && "refs"@.len() == 4 && "index"@.len() == 5);
            assert("op.json"@ != "refs"@ && "op.json"@ != "index"@ && "refs"@ != "index"@);
            let pre = entries@.subrange(0, i + 1);
            assert(pre.drop_last() =~= entries@.subrange(0, i as int));
            assert(pre.last() == entries@[i as int]);
        }
        if crate::text::str_eq(name, "op.json") {
            op = Some(entries[i].1);
        } else if crate::text::str_eq(name, "refs") {
            refs = Some(entries[i].1);
        } else if crate::text::str_eq(name, "index") {
            index = Some(entries[i].1);
        }
        i += 1;
    }
    assert(entries@.subrange(0, entries.len() as int) =~= entries@);
    match (op, refs, index) {
        (Some(o), Some(f), Some(x)) => Ok((o, f, x)),
        (None, _, _) => {
            let a = crate::text::concat("journal entry ", id);
            let m = crate::text::concat(a.as_str(), " has no op.json");
            Err(Error::msg(m.as_str()))
        },
        (Some(_), None, _) => {
            let a = crate::text::concat("journal entry ", id);
            let m = crate::text::concat(a.as_str(), " has no refs blob");
            Err(Error::msg(m.as_str()))
        },
        (Some(_), Some(_), None) => {
            let a = crate::text::concat("journal entry ", id);
            let m = crate::text::concat(a.as_str(), " has no index tree");
            Err(Error::msg(m.as_str()))
        },
    }
}

} // verus!
