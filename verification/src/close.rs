//! `ff commit`, the close. The working tree is the open change; closing it
//! moves the branch onto the open commit when that commit is exactly what
//! the close would write, and otherwise mints one and says why. A clean
//! tree closes nothing, whatever the message: fufu writes no empty commit.
//!
//! Here are the close's decisions: the message's cleanup and subject, the
//! refusals and their exits, the branch it lands on, whether the open
//! commit lands, and the reflog line of the advance.

use vstd::prelude::*;
use crate::error::{Error, Result};
use crate::hooks::Verify;
use crate::hex::hex_of;
use crate::journal::{RefTransition, RefsTable};
use crate::oid::Oid;
use crate::text::{opt_view, trimmed_end, is_ws, string_views};

verus! {

/// What `ff commit` was asked.
#[derive(Debug, Clone)]
pub struct CloseOptions {
    /// `-m`: describes what is closing; wins over the pending description.
    pub message: Option<String>,
    /// `--no-verify`: skip the pre-commit and commit-msg hooks.
    pub verify: Verify,
    /// `-b`: placeholder branch claims the name; a fresh name on a named
    /// branch forks, and the old branch stays.
    pub branch: Option<String>,
    /// `<paths>`: close only what lies under these, leaving the rest open.
    pub paths: Vec<String>,
    /// Clock injection for tests.
    pub now: Option<i64>,
    /// The invoking argv, recorded verbatim.
    pub argv: Vec<String>,
}

/// Why the open commit did not land, when the reason is fufu's to explain.
#[derive(Debug, Clone, Copy, PartialEq, Eq, Structural)]
pub enum Remint {
    /// The close signs, and the open commit is unsigned.
    Signed,
    /// Paths narrowed the close.
    Partial,
    /// A hook changed the tree.
    HookTree,
    /// A hook changed the message.
    HookMessage,
}

/// `s` with the trailing whitespace of every line stripped, the lines
/// kept apart by their `\n`.
pub open spec fn lines_stripped(s: Seq<char>) -> Seq<char>
    decreases s.len(),
{
    let e = crate::text::count_before(s, '\n');
    if e >= s.len() {
        trimmed_end(s)
    } else {
        proof {
            crate::text::lemma_count_before_bound(s, '\n');
        }
        trimmed_end(s.take(e as int)) + seq!['\n'] + lines_stripped(s.skip((e + 1) as int))
    }
}

/// The cleaned message: the text without trailing whitespace, each of its
/// lines stripped of trailing whitespace, and exactly one newline after
/// it; empty stays empty.
pub open spec fn normalized(m: Seq<char>) -> Seq<char> {
    let t = trimmed_end(m);
    if t.len() == 0 {
        Seq::empty()
    } else {
        lines_stripped(t).push('\n')
    }
}

proof fn lemma_count_before_none(t: Seq<char>, c: char)
    requires
        forall|i: int| 0 <= i < t.len() ==> t[i] != c,
    ensures
        crate::text::count_before(t, c) == t.len(),
    decreases t.len(),
{
    if t.len() > 0 {
        assert(t[0] != c);
        lemma_count_before_none(t.drop_first(), c);
    }
}

proof fn lemma_count_before_at(a: Seq<char>, c: char, x: Seq<char>)
    requires
        forall|i: int| 0 <= i < a.len() ==> a[i] != c,
    ensures
        crate::text::count_before(a + seq![c] + x, c) == a.len(),
    decreases a.len(),
{
    let t = a + seq![c] + x;
    if a.len() == 0 {
        assert(t[0] == c);
    } else {
        assert(t[0] == a[0]);
        assert(t.drop_first() =~= a.drop_first() + seq![c] + x);
        lemma_count_before_at(a.drop_first(), c, x);
    }
}

/// Whitespace-trimming a line keeps it free of `\n`.
proof fn lemma_trimmed_line(l: Seq<char>)
    requires
        forall|i: int| 0 <= i < l.len() ==> l[i] != '\n',
    ensures
        forall|i: int| 0 <= i < trimmed_end(l).len() ==> trimmed_end(l)[i] != '\n',
{
    crate::text::lemma_trim_end_len_bound(l);
    assert forall|i: int| 0 <= i < trimmed_end(l).len() implies trimmed_end(l)[i] != '\n' by {
        assert(trimmed_end(l)[i] == l[i]);
    }
}

/// Stripping the lines of a text whose lines are already stripped changes
/// nothing.
proof fn lemma_lines_stripped_idempotent(s: Seq<char>)
    ensures
        lines_stripped(lines_stripped(s)) == lines_stripped(s),
    decreases s.len(),
{
    let e = crate::text::count_before(s, '\n');
    crate::text::lemma_count_before_bound(s, '\n');
    let l = lines_stripped(s);
    if e >= s.len() {
        lemma_trimmed_line(s);
        lemma_count_before_none(l, '\n');
        crate::text::lemma_trimmed_end_idempotent(s);
    } else {
        let a = trimmed_end(s.take(e as int));
        let rest = s.skip((e + 1) as int);
        let x = lines_stripped(rest);
        lemma_trimmed_line(s.take(e as int));
        assert(l == a + seq!['\n'] + x);
        lemma_count_before_at(a, '\n', x);
        assert((a + seq!['\n'] + x).take(a.len() as int) =~= a);
        assert((a + seq!['\n'] + x).skip((a.len() + 1) as int) =~= x);
        crate::text::lemma_trimmed_end_idempotent(s.take(e as int));
        lemma_lines_stripped_idempotent(rest);
    }
}

/// A text that ends in a character other than whitespace keeps that last
/// character once its lines are stripped.
proof fn lemma_lines_stripped_last(s: Seq<char>)
    requires
        s.len() > 0,
        !is_ws(s.last()),
    ensures
        lines_stripped(s).len() > 0,
        lines_stripped(s).last() == s.last(),
    decreases s.len(),
{
    let e = crate::text::count_before(s, '\n');
    crate::text::lemma_count_before_bound(s, '\n');
    crate::text::lemma_trim_end_len_bound(s);
    if e >= s.len() {
        assert(crate::text::trim_end_len(s) == s.len());
    } else {
        assert(is_ws('\n'));
        assert(e < s.len() - 1);
        let rest = s.skip((e + 1) as int);
        assert(rest.last() == s.last());
        lemma_lines_stripped_last(rest);
    }
}

/// The cleanup is idempotent, and what it leaves is either empty or ends
/// in exactly one `\n` that follows a character other than whitespace.
pub proof fn lemma_normalize_idempotent(m: Seq<char>)
    ensures
        normalized(normalized(m)) == normalized(m),
        normalized(m).len() == 0 || (normalized(m).len() >= 2 && normalized(m).last() == '\n'
            && !is_ws(normalized(m)[normalized(m).len() - 2])),
{
    let t = trimmed_end(m);
    let n = normalized(m);
    crate::text::lemma_trim_end_len_bound(m);
    if t.len() == 0 {
        assert(n.len() == 0);
        assert(trimmed_end(n).len() == 0) by {
            crate::text::lemma_trim_end_len_bound(n);
        }
    } else {
        assert(t.last() == m[crate::text::trim_end_len(m) - 1]);
        lemma_lines_stripped_last(t);
        let l = lines_stripped(t);
        assert(n == l.push('\n'));
        assert(is_ws('\n'));
        assert(n.drop_last() =~= l);
        assert(crate::text::trim_end_len(n) == crate::text::trim_end_len(l));
        crate::text::lemma_trim_end_len_bound(l);
        assert(crate::text::trim_end_len(l) == l.len());
        assert(trimmed_end(n) =~= l);
        lemma_lines_stripped_idempotent(t);
        assert(n[n.len() - 2] == l.last());
    }
}

/// Git-style minimal cleanup: strip trailing whitespace at every line end,
/// cap to one trailing newline, empty stays empty.
pub fn normalize_message(message: &str) -> (r: String)
    ensures
        r@ == normalized(message@),
{
    let t = crate::text::trim_end_chars(&crate::text::chars_of(message));
    if t.len() == 0 {
        return String::new();
    }
    let mut out: Vec<char> = Vec::new();
    let mut p: usize = 0;
    assert(t@.skip(0) =~= t@);
    assert(out@ + lines_stripped(t@.skip(0)) =~= lines_stripped(t@));
    loop
        invariant_except_break
            p <= t@.len(),
            out@ + lines_stripped(t@.skip(p as int)) == lines_stripped(t@),
        ensures
            out@ == lines_stripped(t@),
        decreases t@.len() - p,
    {
        let rest = crate::text::skip_chars(&t, p);
        let e = crate::text::position_of(&rest, '\n');
        proof {
            crate::text::lemma_count_before_bound(rest@, '\n');
        }
        if e >= rest.len() {
            let line = crate::text::trim_end_chars(&rest);
            let ghost o = out@;
            let mut l = line;
            out.append(&mut l);
            proof {
                assert(out@ == o + trimmed_end(rest@));
                assert(lines_stripped(rest@) == trimmed_end(rest@));
            }
            break;
        }
        assert(rest@.len() == t@.len() - p);
        let seg = crate::text::slice_chars(&rest, 0, e);
        let line = crate::text::trim_end_chars(&seg);
        let ghost o = out@;
        let mut l = line;
        out.append(&mut l);
        out.push('\n');
        proof {
            assert(seg@ =~= rest@.take(e as int));
            assert(rest@.skip(e + 1) =~= t@.skip(p + e + 1));
            assert(out@ =~= o + (trimmed_end(rest@.take(e as int)) + seq!['\n']));
            assert(lines_stripped(rest@) == trimmed_end(rest@.take(e as int)) + seq!['\n'] + lines_stripped(rest@.skip(e + 1)));
            assert(out@ + lines_stripped(t@.skip(p + e + 1)) =~= o + lines_stripped(rest@));
        }
        let n = t.len();
        assert(e < rest@.len());
        assert(p + e + 1 <= n);
        p = p + e + 1;
    }
    out.push('\n');
    crate::text::string_of(&out)
}

/// The subject a message lands with: its first line, or `(no
/// description)` when it has none.
pub open spec fn subject_spec(m: Seq<char>) -> Seq<char> {
    let ls = crate::text::lines_of(m);
    if ls.len() > 0 {
        ls[0]
    } else {
        "(no description)"@
    }
}

/// The subject a message lands with.
pub fn subject_of(message: &str) -> (r: String)
    ensures
        r@ == subject_spec(message@),
{
    let ls = crate::text::lines(&crate::text::chars_of(message));
    if ls.len() > 0 {
        proof {
            assert(ls@.map_values(|l: Vec<char>| l@)[0] == ls@[0]@);
        }
        crate::text::string_of(&ls[0])
    } else {
        crate::text::owned("(no description)")
    }
}

/// Paths joined by `", "`.
pub open spec fn joined_paths(paths: Seq<Seq<char>>) -> Seq<char> {
    crate::journal::join_with(paths, ", "@)
}

pub(crate) fn join_paths(paths: &Vec<String>) -> (r: String)
    ensures
        r@ == joined_paths(string_views(paths@)),
{
    let ghost views = string_views(paths@);
    let mut out: Vec<char> = Vec::new();
    let mut k: usize = 0;
    while k < paths.len()
        invariant
            k <= paths@.len(),
            views == string_views(paths@),
            out@ == crate::journal::join_with(views.take(k as int), ", "@),
        decreases paths.len() - k,
    {
        if k > 0 {
            crate::text::extend_chars(&mut out, ", ");
        }
        crate::text::extend_chars(&mut out, paths[k].as_str());
        proof {
            assert(views.take(k + 1).drop_last() =~= views.take(k as int));
            if k == 0 {
                assert(out@ =~= views[0]);
            }
        }
        k += 1;
    }
    proof {
        assert(views.take(paths@.len() as int) =~= views);
    }
    crate::text::string_of(&out)
}

/// The clean-tree refusal: no hooks, no commit, nothing written. A pending
/// description survives it and says so; a `-m` is discarded with it.
pub fn empty_refusal(branch: &str, pending: Option<&str>, paths: &Vec<String>) -> (e: Error)
    ensures
        e matches Error::Coded { id, message, exits } && id@ == "commit/empty"@ && ({
            let head = if paths@.len() == 0 {
                "nothing to close on "@ + branch@ + ": the tree matches HEAD, and fufu writes no empty commit"@
            } else {
                "nothing to close under "@ + joined_paths(string_views(paths@)) + " on "@ + branch@
                    + ": those paths match HEAD, and fufu writes no empty commit"@
            };
            message@ == if pending is Some { head + "; the pending description stays put"@ } else { head }
        }) && string_views(exits@) == if paths@.len() == 0 {
            seq!["ff status"@, "ff describe -m <message>"@]
        } else {
            seq!["ff diff <path>"@, "ff status"@]
        },
{
    let mut exits: Vec<String> = Vec::new();
    let head = if paths.len() == 0 {
        exits.push(crate::text::owned("ff status"));
        exits.push(crate::text::owned("ff describe -m <message>"));
        let a = crate::text::concat("nothing to close on ", branch);
        crate::text::concat(a.as_str(), ": the tree matches HEAD, and fufu writes no empty commit")
    } else {
        exits.push(crate::text::owned("ff diff <path>"));
        exits.push(crate::text::owned("ff status"));
        let j = join_paths(paths);
        let a = crate::text::concat("nothing to close under ", j.as_str());
        let b = crate::text::concat(a.as_str(), " on ");
        let c = crate::text::concat(b.as_str(), branch);
        crate::text::concat(c.as_str(), ": those paths match HEAD, and fufu writes no empty commit")
    };
    let message = match pending {
        Some(_) => crate::text::concat(head.as_str(), "; the pending description stays put"),
        None => head,
    };
    proof {
        if paths@.len() == 0 {
            assert(string_views(exits@) =~= seq!["ff status"@, "ff describe -m <message>"@]);
        } else {
            assert(string_views(exits@) =~= seq!["ff diff <path>"@, "ff status"@]);
        }
    }
    Error::coded("commit/empty", message.as_str(), exits)
}

/// The refusal of `token` as a path.
pub open spec fn no_such_path_refusal(e: Error, token: Seq<char>) -> bool {
    e matches Error::Coded { id, message, exits } && id@ == "usage/no-such-path"@
        && message@ == "no path here goes by "@ + crate::text::debug_quoted(token) + ": `ff commit` takes file and directory paths"@
        && string_views(exits@) == if exists|i: int| 0 <= i < token.len() && is_ws(#[trigger] token[i]) {
            seq!["ff commit -m "@ + crate::text::debug_quoted(token), "ff status"@]
        } else {
            seq!["ff status"@, "ff commit"@]
        }
}

/// A path that names nothing on disk or in HEAD is refused, not committed
/// with a hole in it. A sentence in the path slot is almost always a
/// forgotten `-m`, so the exits then lead with the flag-shaped one.
pub fn no_such_path(token: &str) -> (e: Error)
    ensures
        no_such_path_refusal(e, token@),
{
    let v = crate::text::chars_of(token);
    let mut spaced = false;
    let mut i: usize = 0;
    while i < v.len()
        invariant
            i <= v@.len(),
            v@ == token@,
            spaced == exists|k: int| 0 <= k < i && is_ws(#[trigger] token@[k]),
        decreases v.len() - i,
    {
        if crate::text::is_whitespace(v[i]) {
            spaced = true;
        }
        i += 1;
    }
    let q = crate::text::quoted(token);
    let mut exits: Vec<String> = Vec::new();
    if spaced {
        exits.push(crate::text::concat("ff commit -m ", q.as_str()));
        exits.push(crate::text::owned("ff status"));
    } else {
        exits.push(crate::text::owned("ff status"));
        exits.push(crate::text::owned("ff commit"));
    }
    let a = crate::text::concat("no path here goes by ", q.as_str());
    let m = crate::text::concat(a.as_str(), ": `ff commit` takes file and directory paths");
    proof {
        if spaced {
            assert(string_views(exits@) =~= seq!["ff commit -m "@ + crate::text::debug_quoted(token@), "ff status"@]);
        } else {
            assert(string_views(exits@) =~= seq!["ff status"@, "ff commit"@]);
        }
    }
    Error::coded("usage/no-such-path", m.as_str(), exits)
}

/// Where a close lands: the branch underfoot, or the `-b` name.
#[derive(Debug)]
pub struct Axis {
    pub target_branch: String,
    /// The anonymous branch a `-b` claims under the new name.
    pub claim_from: Option<String>,
    /// `-b` with a fresh name on a named branch: the close forks.
    pub created_branch: bool,
}

/// Where a close lands. With no `-b`, on the branch underfoot. With one,
/// on the new name, which must not exist yet (`exists` says whether it
/// does): a claim when the branch underfoot is one fufu named, a fork
/// otherwise. The name has passed `branch::validate_name` first.
pub fn landing_branch(requested: Option<&str>, exists: bool, current_branch: &str) -> (r: Result<Axis>)
    ensures
        requested is None ==> (r matches Ok(a) && a.target_branch@ == current_branch@ && a.claim_from is None && !a.created_branch),
        requested matches Some(n) ==> (exists ==> (r matches Err(Error::Coded { id, message, exits }) && id@ == "branch/exists"@
            && message@ == "a branch named "@ + n@ + " already exists"@ && string_views(exits@) == seq!["ff branch"@])),
        requested matches Some(n) ==> (!exists ==> (r matches Ok(a) && a.target_branch@ == n@ && (
            if crate::branch::ANON_PREFIX@.is_prefix_of(current_branch@) {
                a.claim_from matches Some(c) && c@ == current_branch@ && !a.created_branch
            } else {
                a.claim_from is None && a.created_branch
            }))),
{
    match requested {
        None => Ok(Axis { target_branch: crate::text::owned(current_branch), claim_from: None, created_branch: false }),
        Some(name) => {
            if exists {
                let a = crate::text::concat("a branch named ", name);
                let m = crate::text::concat(a.as_str(), " already exists");
                let mut exits: Vec<String> = Vec::new();
                exits.push(crate::text::owned("ff branch"));
                assert(string_views(exits@) =~= seq!["ff branch"@]);
                return Err(Error::coded("branch/exists", m.as_str(), exits));
            }
            if crate::branch::is_anonymous(current_branch) {
                Ok(Axis { target_branch: crate::text::owned(name), claim_from: Some(crate::text::owned(current_branch)), created_branch: false })
            } else {
                Ok(Axis { target_branch: crate::text::owned(name), claim_from: None, created_branch: true })
            }
        },
    }
}

/// What is known of the open commit when the close decides whether it
/// lands: absent (or carrying another id), or present with whether its
/// tree and message are the ones this close would write.
#[derive(Debug, Clone, Copy)]
pub enum OpenCommit {
    Absent,
    Present { same_tree: bool, same_message: bool },
}

/// Whether the open commit lands, and why not when the reason is fufu's to
/// explain: a signing close or a partial one always mints; a different
/// tree is a hook's doing; a different message is explained only when a
/// hook changed it, since a `-m` is the user's own choice.
pub fn landing_choice(open: OpenCommit, signs: bool, partial: bool, hook_changed_message: bool) -> (r: (bool, Option<Remint>))
    ensures
        open is Absent ==> r == (false, None::<Remint>),
        open matches OpenCommit::Present { same_tree, same_message } ==> r == (
            if signs {
                (false, Some(Remint::Signed))
            } else if partial {
                (false, Some(Remint::Partial))
            } else if !same_tree {
                (false, Some(Remint::HookTree))
            } else if !same_message {
                (false, if hook_changed_message { Some(Remint::HookMessage) } else { None })
            } else {
                (true, None)
            }
        ),
{
    match open {
        OpenCommit::Absent => (false, None),
        OpenCommit::Present { same_tree, same_message } => {
            if signs {
                (false, Some(Remint::Signed))
            } else if partial {
                (false, Some(Remint::Partial))
            } else if !same_tree {
                (false, Some(Remint::HookTree))
            } else if !same_message {
                (false, if hook_changed_message { Some(Remint::HookMessage) } else { None })
            } else {
                (true, None)
            }
        },
    }
}

/// The reflog line the advance writes: `commit: <subject>`, or `commit
/// (initial): <subject>` for the first commit of an unborn branch.
pub fn reflog_message(born: bool, subject: &str) -> (r: String)
    ensures
        r@ == (if born { "commit: "@ } else { "commit (initial): "@ }) + subject@,
{
    if born {
        crate::text::concat("commit: ", subject)
    } else {
        crate::text::concat("commit (initial): ", subject)
    }
}

/// The operation's summary: `commit on <branch>: <subject>`.
pub fn close_summary(target_branch: &str, subject: &str) -> (r: String)
    ensures
        r@ == "commit on "@ + target_branch@ + ": "@ + subject@,
{
    let a = crate::text::concat("commit on ", target_branch);
    let b = crate::text::concat(a.as_str(), ": ");
    crate::text::concat(b.as_str(), subject)
}

/// An id's spelling, when there is one.
pub open spec fn opt_hex(o: Option<Oid>) -> Option<Seq<char>> {
    match o {
        Some(c) => Some(hex_of(c@)),
        None => None,
    }
}

/// The refs a close plans: a claim takes the old branch's name away and
/// moves its parked change, if any, to the target; then the target stands
/// at the commit that lands.
pub open spec fn close_map(
    m: Map<Seq<char>, Seq<char>>,
    target: Seq<char>,
    claim_from: Option<Seq<char>>,
    parked: Option<Seq<char>>,
    commit: Seq<char>,
) -> Map<Seq<char>, Seq<char>> {
    let m1 = match claim_from {
        Some(o) => {
            let a = m.remove("refs/heads/"@ + o);
            match parked {
                Some(p) => a.remove(crate::linked::PARKED_PREFIX@ + o).insert(crate::linked::PARKED_PREFIX@ + target, p),
                None => a,
            }
        },
        None => m,
    };
    m1.insert("refs/heads/"@ + target, commit)
}

/// The close's write-ahead: the post-close table it records as planned,
/// and the ref transitions and HEAD move of its record. `claim_from` is the
/// branch a claim renames, `parked` that branch's parked change, `dash_b`
/// whether `-b` was given, and `commit_id` the commit that lands.
pub fn plan_close(
    table: &mut RefsTable,
    current_branch: &str,
    target_branch: &str,
    claim_from: Option<&str>,
    parked: Option<Oid>,
    head_commit: Option<Oid>,
    dash_b: bool,
    commit_id: &Oid,
) -> (r: (Vec<RefTransition>, Option<(String, String)>))
    requires
        old(table).wf(),
    ensures
        final(table).wf(),
        final(table).head@ == if dash_b { "ref:"@ + ("refs/heads/"@ + target_branch@) } else { old(table).head@ },
        final(table).map() == close_map(
            old(table).map(),
            target_branch@,
            match claim_from { Some(o) => Some(o@), None => None },
            opt_hex(parked),
            hex_of(commit_id@),
        ),
        r.0@.len() == if claim_from is Some { 2int } else { 1int },
        claim_from matches Some(o) ==> ({
            let t = r.0@[0];
            t.name@ == "refs/heads/"@ + o@ && opt_view(t.old) == opt_hex(head_commit) && t.new is None
        }),
        ({
            let t = r.0@[r.0@.len() - 1];
            &&& t.name@ == "refs/heads/"@ + target_branch@
            &&& opt_view(t.old) == if dash_b { None } else { opt_hex(head_commit) }
            &&& opt_view(t.new) == Some(hex_of(commit_id@))
        }),
        r.1 is Some <==> dash_b,
        r.1 matches Some(h) ==> h.0@ == "ref:"@ + ("refs/heads/"@ + current_branch@)
            && h.1@ == "ref:"@ + ("refs/heads/"@ + target_branch@),
{
    let mut transitions: Vec<RefTransition> = Vec::new();
    let head_hex = match head_commit {
        Some(c) => Some(c.to_hex()),
        None => None,
    };
    match claim_from {
        Some(old_name) => {
            let old_ref = crate::branch::heads_ref(old_name);
            table.remove(old_ref.as_str());
            transitions.push(RefTransition { name: old_ref, old: head_hex.clone(), new: None });
            match parked {
                Some(p) => {
                    let old_parked = crate::text::concat(crate::linked::PARKED_PREFIX, old_name);
                    table.remove(old_parked.as_str());
                    let new_parked = crate::text::concat(crate::linked::PARKED_PREFIX, target_branch);
                    let ph = p.to_hex();
                    table.insert(new_parked.as_str(), ph.as_str());
                },
                None => {},
            }
        },
        None => {},
    }
    let target_ref = crate::branch::heads_ref(target_branch);
    let commit_hex = commit_id.to_hex();
    let old_tip = if dash_b { None } else { head_hex };
    transitions.push(RefTransition { name: crate::text::owned(target_ref.as_str()), old: old_tip, new: Some(commit_hex.clone()) });
    table.insert(target_ref.as_str(), commit_hex.as_str());
    let head = if dash_b {
        let from = crate::branch::heads_ref(current_branch);
        let a = crate::text::concat("ref:", from.as_str());
        let b = crate::text::concat("ref:", target_ref.as_str());
        table.head = crate::text::concat("ref:", target_ref.as_str());
        Some((a, b))
    } else {
        None
    };
    (transitions, head)
}

/// The refusal when the branch moved under the close: nothing was
/// committed, and running it again closes on the new tip.
pub fn advance_contended(target_ref: &str) -> (e: Error)
    ensures
        e matches Error::Coded { id, message, exits } && id@ == "ref/contended"@
            && message@ == target_ref@ + " moved while closing; nothing was committed (re-run to close on the new tip)"@
            && exits@.len() == 0,
{
    let m = crate::text::concat(target_ref, " moved while closing; nothing was committed (re-run to close on the new tip)");
    Error::coded("ref/contended", m.as_str(), Vec::new())
}

} // verus!
