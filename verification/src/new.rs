//! `ff new`: close the open change here, or park what is here, arrive at a
//! target and close whatever is open there. What it was asked, and the
//! clock every verb reads when no time was injected.

use vstd::prelude::*;
use crate::error::{Error, Result};
use crate::oid::Oid;
use crate::text::string_views;

verus! {

/// What `ff new` was asked to do.
#[derive(Debug, Clone, Default)]
pub struct NewOptions {
    /// Where to open the next change; `None` is here.
    pub target: Option<String>,
    /// The pending description for the change it opens.
    pub message: Option<String>,
    /// The name for a minted branch, a claim, or the fork at the new tip.
    pub branch: Option<String>,
    /// An injected clock, for tests.
    pub now: Option<i64>,
    pub argv: Vec<String>,
}

#[verifier::external_type_specification]
#[verifier::external_body]
pub struct ExSystemTime(std::time::SystemTime);

/// `std::time::SystemTime::now`: the machine's clock. Nothing is claimed of
/// what it reads.
#[verifier::external_body]
fn clock_now() -> std::time::SystemTime {
    std::time::SystemTime::now()
}

/// `SystemTime::duration_since` with the Unix epoch: how long after the
/// epoch `t` stands, `None` when it stands before it. Nothing is claimed of
/// the duration, which the clock decided.
#[verifier::external_body]
fn since_epoch(t: &std::time::SystemTime) -> Option<core::time::Duration> {
    t.duration_since(std::time::UNIX_EPOCH).ok()
}

/// `Duration::as_secs`: the whole seconds of a duration. The duration is
/// opaque here, so nothing is claimed of the count.
#[verifier::external_body]
fn whole_seconds(d: &core::time::Duration) -> u64 {
    d.as_secs()
}

/// The seconds a clock reading stands for: its whole seconds since the
/// Unix epoch, `None` for a clock set before the epoch, which reads as 0.
pub open spec fn seconds_or_zero_spec(secs: Option<u64>) -> i64 {
    match secs {
        Some(s) => s as i64,
        None => 0,
    }
}

/// A clock reading as the time a verb runs at: its whole seconds, cast to
/// `i64`, and 0 for a clock set before the epoch.
pub fn seconds_or_zero(secs: Option<u64>) -> (r: i64)
    ensures
        r == seconds_or_zero_spec(secs),
{
    match secs {
        Some(s) => s as i64,
        None => 0,
    }
}

/// The clock's whole seconds since the Unix epoch, `None` when it is set
/// before the epoch.
fn clock_seconds() -> Option<u64> {
    let t = clock_now();
    match since_epoch(&t) {
        Some(d) => Some(whole_seconds(&d)),
        None => None,
    }
}

/// The time a verb runs at: the injected one when there is one, else the
/// clock's seconds since the Unix epoch, and 0 for a clock set before it.
/// The clock's reading is what the machine says; the function promises
/// only that the result is that reading taken through `seconds_or_zero`.
pub fn resolve_now(now: Option<i64>) -> (r: i64)
    ensures
        now matches Some(n) ==> r == n,
        now is None ==> exists|secs: Option<u64>| r == seconds_or_zero_spec(secs),
{
    match now {
        Some(n) => n,
        None => {
            let secs = clock_seconds();
            let r = seconds_or_zero(secs);
            assert(r == seconds_or_zero_spec(secs));
            r
        },
    }
}


/// Where a `ff new` target resolved to.
#[derive(Debug, Clone, PartialEq, Eq)]
pub enum NewTarget {
    /// An existing branch, by name or as the tip of exactly this one.
    Existing(String),
    /// Mint a branch at this commit.
    Mint { at: Oid, name: String, forked_from: String },
}

/// A target that names a branch continues it; `-b` names a new branch and
/// cannot name that one. `None` when `raw` is no branch name, and the
/// target is read as a revision instead.
pub fn target_by_name(names: &Vec<String>, raw: &str, dash_b: Option<&str>) -> (r: Option<Result<NewTarget>>)
    ensures
        r is Some <==> string_views(names@).contains(raw@),
        r matches Some(x) ==> match dash_b {
            Some(_) => x matches Err(Error::Repo(m)) && m@ == "-b names a new branch, but "@ + raw@ + " already names one"@,
            None => x matches Ok(NewTarget::Existing(n)) && n@ == raw@,
        },
{
    if !crate::cascade::contains_str(names, raw) {
        return None;
    }
    match dash_b {
        Some(_) => {
            let a = crate::text::concat("-b names a new branch, but ", raw);
            let m = crate::text::concat(a.as_str(), " already names one");
            Some(Err(Error::Repo(m)))
        },
        None => Some(Ok(NewTarget::Existing(crate::text::owned(raw)))),
    }
}

/// A target read as a revision, at `commit`, given the branches whose tip
/// it is (`at_tip`): the tip of exactly one branch continues that branch;
/// of none, a branch is minted there, named by `-b` when given (which must
/// be a valid name no branch has, `taken` saying whether one has) and by
/// `minted` otherwise; of several, it is ambiguous.
pub fn target_by_commit(
    raw: &str,
    commit: Oid,
    at_tip: &Vec<String>,
    dash_b: Option<&str>,
    taken: bool,
    minted: &str,
) -> (r: Result<NewTarget>)
    ensures
        at_tip@.len() == 1 && dash_b is Some ==> (r matches Err(Error::Repo(m)) && m@ == "-b names a new branch, but "@
            + raw@ + " is the tip of "@ + at_tip@[0]@),
        at_tip@.len() == 1 && dash_b is None ==> (r matches Ok(NewTarget::Existing(n)) && n == at_tip@[0]),
        at_tip@.len() == 0 ==> match dash_b {
            Some(b) => if crate::branch::gix_ref_name_error("refs/heads/"@ + b@) is Some {
                r is Err
            } else if taken {
                r matches Err(Error::Repo(m)) && m@ == "a branch named "@ + b@ + " already exists"@
            } else {
                r matches Ok(NewTarget::Mint { at, name, forked_from }) && at == commit && name@ == b@
                    && forked_from@ == crate::hex::hex_of(commit@)
            },
            None => r matches Ok(NewTarget::Mint { at, name, forked_from }) && at == commit && name@ == minted@
                && forked_from@ == crate::hex::hex_of(commit@),
        },
        at_tip@.len() > 1 ==> (r matches Err(Error::Repo(m)) && m@ == raw@ + " is the tip of several branches ("@
            + crate::close::joined_paths(string_views(at_tip@)) + "); name the one to continue"@),
{
    if at_tip.len() == 1 {
        return match dash_b {
            Some(_) => {
                let a = crate::text::concat("-b names a new branch, but ", raw);
                let b = crate::text::concat(a.as_str(), " is the tip of ");
                Err(Error::Repo(crate::text::concat(b.as_str(), at_tip[0].as_str())))
            },
            None => Ok(NewTarget::Existing(at_tip[0].clone())),
        };
    }
    if at_tip.len() == 0 {
        let name = match dash_b {
            Some(b) => {
                match crate::branch::validate_name(b) {
                    Ok(()) => {},
                    Err(e) => return Err(e),
                }
                if taken {
                    let a = crate::text::concat("a branch named ", b);
                    return Err(Error::Repo(crate::text::concat(a.as_str(), " already exists")));
                }
                crate::text::owned(b)
            },
            None => crate::text::owned(minted),
        };
        return Ok(NewTarget::Mint { at: commit, name, forked_from: commit.to_hex() });
    }
    let list = crate::close::join_paths(at_tip);
    let a = crate::text::concat(raw, " is the tip of several branches (");
    let b = crate::text::concat(a.as_str(), list.as_str());
    Err(Error::Repo(crate::text::concat(b.as_str(), "); name the one to continue")))
}

/// Whether a bare `ff new -b` claims the placeholder it stands on before
/// closing, rather than forking a new branch after: it does when the
/// current branch is one fufu named itself.
pub fn claims_first(branch: Option<&str>, current: &str) -> (r: bool)
    ensures
        r == (branch is Some && crate::branch::ANON_PREFIX@.is_prefix_of(current@)),
{
    branch.is_some() && crate::branch::is_anonymous(current)
}

/// What minting a branch records: its summary, naming the commit by its
/// first eight hex digits, the branch's creation at the commit (also
/// written into the planned table), and the reflog message naming what it
/// forked from.
pub fn mint_branch_record(
    table: &mut crate::journal::RefsTable,
    name: &str,
    at: &Oid,
    forked_from: &str,
) -> (r: (String, crate::journal::RefTransition, String))
    requires
        old(table).wf(),
    ensures
        final(table).wf(),
        final(table).head == old(table).head,
        final(table).map() == old(table).map().insert("refs/heads/"@ + name@, crate::hex::hex_of(at@)),
        r.0@ == "mint branch "@ + name@ + " at "@ + crate::hex::hex_of(at@).take(8),
        crate::branch::created(r.1, "refs/heads/"@ + name@, crate::hex::hex_of(at@)),
        r.2@ == "branch: forked from "@ + forked_from@,
{
    let full = crate::branch::heads_ref(name);
    let hex = at.to_hex();
    table.insert(full.as_str(), hex.as_str());
    let h = crate::text::chars_of(hex.as_str());
    proof {
        crate::hex::lemma_hex_round_trip(at@);
    }
    let eight = crate::text::slice_chars(&h, 0, 8);
    let a = crate::text::concat("mint branch ", name);
    let b = crate::text::concat(a.as_str(), " at ");
    let summary = crate::text::concat(b.as_str(), crate::text::string_of(&eight).as_str());
    let t = crate::journal::RefTransition { name: full, old: None, new: Some(hex) };
    (summary, t, crate::text::concat("branch: forked from ", forked_from))
}

} // verus!
