//! `ff merge`: one commit with two parents, the branch's tip first, taking
//! another branch in. Here are its decisions: whether there is anything to
//! merge, the message the commit carries, and what the merge's operation
//! records.

use vstd::prelude::*;
use crate::error::{Error, Result};
use crate::fold::refusal;
use crate::journal::{RefTransition, RefsTable};
use crate::oid::Oid;
use crate::text::string_views;

verus! {

/// The default subject of a merge commit.
pub open spec fn merge_subject(onto: Seq<char>, branch: Seq<char>) -> Seq<char> {
    "merge "@ + onto + " into "@ + branch
}

/// The commit's default subject, `merge <base> into <branch>`, where `onto`
/// is the base's name.
pub fn default_message(onto: &str, branch: &str) -> (r: String)
    ensures
        r@ == merge_subject(onto@, branch@),
{
    let a = crate::text::concat("merge ", onto);
    let b = crate::text::concat(a.as_str(), " into ");
    crate::text::concat(b.as_str(), branch)
}

/// The message a merge commit carries: the one given, or the default,
/// cleaned up the way every message is.
pub fn merge_message(message: Option<&str>, onto: &str, branch: &str) -> (r: String)
    ensures
        r@ == crate::close::normalized(match message {
            Some(m) => m@,
            None => merge_subject(onto@, branch@),
        }),
{
    match message {
        Some(m) => crate::close::normalize_message(m),
        None => {
            let d = default_message(onto, branch);
            crate::close::normalize_message(d.as_str())
        },
    }
}

fn contains_oid(v: &Vec<Oid>, x: &Oid) -> (r: bool)
    ensures
        r == exists|i: int| 0 <= i < v@.len() && v@[i]@ == x@,
{
    let mut i: usize = 0;
    while i < v.len()
        invariant
            i <= v@.len(),
            forall|j: int| 0 <= j < i ==> v@[j]@ != x@,
        decreases v.len() - i,
    {
        if v[i].same(x) {
            return true;
        }
        i += 1;
    }
    false
}

/// Where the branch stands against what it would take in, from their merge
/// bases: no common ancestor refuses; the other tip already beneath the
/// branch means there is nothing to merge and a hold asking for it is moot
/// (`Ok(true)`); the branch beneath the other tip is refused; otherwise the
/// merge goes ahead (`Ok(false)`).
pub fn merge_standing(branch: &str, onto: &str, tip: &Oid, onto_tip: &Oid, bases: &Vec<Oid>) -> (r: Result<bool>)
    ensures
        bases@.len() == 0 ==> (r matches Err(e) && refusal(
            e,
            "merge/unrelated"@,
            branch@ + " and "@ + onto@ + " have no common ancestor: there is nothing to merge"@,
            seq!["ff log"@],
        )),
        bases@.len() > 0 ==> {
            let already = exists|i: int| 0 <= i < bases@.len() && bases@[i]@ == onto_tip@;
            let beneath = exists|i: int| 0 <= i < bases@.len() && bases@[i]@ == tip@;
            &&& already ==> r == Ok::<bool, Error>(true)
            &&& !already && beneath ==> (r matches Err(Error::Repo(m)) && m@ == branch@ + " is beneath "@ + onto@
                + ", so there is nothing to merge"@)
            &&& !already && !beneath ==> r == Ok::<bool, Error>(false)
        },
{
    if bases.len() == 0 {
        let a = crate::text::concat(branch, " and ");
        let b = crate::text::concat(a.as_str(), onto);
        let m = crate::text::concat(b.as_str(), " have no common ancestor: there is nothing to merge");
        let mut v: Vec<String> = Vec::new();
        v.push(crate::text::owned("ff log"));
        proof {
            assert(string_views(v@) =~= seq!["ff log"@]);
        }
        return Err(Error::coded("merge/unrelated", m.as_str(), v));
    }
    if contains_oid(bases, onto_tip) {
        return Ok(true);
    }
    if contains_oid(bases, tip) {
        let a = crate::text::concat(branch, " is beneath ");
        let b = crate::text::concat(a.as_str(), onto);
        return Err(Error::Repo(crate::text::concat(b.as_str(), ", so there is nothing to merge")));
    }
    Ok(false)
}

/// What a merge's operation records: its summary, the branch's move from
/// its tip to the merge (also written into the planned table), and the
/// reflog message of that move.
pub fn merge_record(
    table: &mut RefsTable,
    branch: &str,
    onto: &str,
    tip: &Oid,
    merge: &Oid,
) -> (r: (String, RefTransition, String))
    requires
        old(table).wf(),
    ensures
        final(table).wf(),
        final(table).head == old(table).head,
        final(table).map() == old(table).map().insert("refs/heads/"@ + branch@, crate::hex::hex_of(merge@)),
        r.0@ == merge_subject(onto@, branch@),
        r.1.name@ == "refs/heads/"@ + branch@,
        r.1.old matches Some(o) && o@ == crate::hex::hex_of(tip@),
        r.1.new matches Some(n) && n@ == crate::hex::hex_of(merge@),
        r.2@ == "merge: "@ + onto@ + " into "@ + branch@,
{
    let full = crate::branch::heads_ref(branch);
    let hex = merge.to_hex();
    table.insert(full.as_str(), hex.as_str());
    let summary = default_message(onto, branch);
    let t = RefTransition { name: full, old: Some(tip.to_hex()), new: Some(hex) };
    let a = crate::text::concat("merge: ", onto);
    let b = crate::text::concat(a.as_str(), " into ");
    (summary, t, crate::text::concat(b.as_str(), branch))
}

/// What a merge keeps reachable: the merge, both parents, and the snapshot
/// taken before it, when one was.
pub fn merge_pins(merge: Oid, tip: Oid, onto_tip: Oid, pre_op: Option<Oid>) -> (r: Vec<Oid>)
    ensures
        r@ == seq![merge, tip, onto_tip] + match pre_op {
            Some(p) => seq![p],
            None => Seq::<Oid>::empty(),
        },
{
    let mut r: Vec<Oid> = Vec::new();
    r.push(merge);
    r.push(tip);
    r.push(onto_tip);
    match pre_op {
        Some(p) => {
            r.push(p);
            assert(r@ =~= seq![merge, tip, onto_tip] + seq![p]);
        },
        None => {
            assert(r@ =~= seq![merge, tip, onto_tip] + Seq::<Oid>::empty());
        },
    }
    r
}

/// The refusal when the branch moved while the merge was being written.
pub fn merge_contended(branch: &str) -> (e: Error)
    ensures
        refusal(e, "ref/contended"@, branch@ + " moved while merging; nothing was merged (re-run ff resolve)"@, Seq::empty()),
{
    let m = crate::text::concat(branch, " moved while merging; nothing was merged (re-run ff resolve)");
    let v: Vec<String> = Vec::new();
    proof {
        assert(string_views(v@) =~= Seq::<Seq<char>>::empty());
    }
    Error::coded("ref/contended", m.as_str(), v)
}

} // verus!
