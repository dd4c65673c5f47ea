//! Collide: the sideways axis. Would two branches, neither beneath the
//! other, conflict with each other? The answer is symmetric, and it is a
//! verdict on one pair: both sides as they were judged, and what a
//! three-way merge of them against their base leaves.

use vstd::prelude::*;
use crate::error::Error;
use crate::futures::UnknownReason;
use crate::hex::hex_of;
use crate::oid::Oid;
use crate::text::string_views;

verus! {

/// How a pair of branches answers each other.
#[derive(Debug, Clone, PartialEq, Eq)]
pub enum Pairing {
    /// A three-way merge of the two against their base leaves no conflicts.
    Clear,
    /// The merge would conflict, on exactly these paths.
    Collide { paths: Vec<String> },
    /// No base to merge against: the answer is refused, not guessed.
    Unknown { reason: UnknownReason },
}

/// One side, as it stands: the tip, unless the open change holds a
/// different tree.
#[derive(Debug, Clone, PartialEq, Eq)]
pub struct Side {
    pub name: String,
    /// The branch tip, lowercase hex.
    pub tip: String,
    /// The tree this side is judged on.
    pub tree: String,
    /// True when that tree is work the operation log holds, not the tip.
    pub open: bool,
}

/// The answer: both sides as they were judged, and the verdict between
/// them.
#[derive(Debug, Clone, PartialEq, Eq)]
pub struct Collision {
    pub a: Side,
    pub b: Side,
    pub pairing: Pairing,
}

/// A branch never conflicts with itself, so the pair `a`, `a` is refused
/// before anything is read: `Some` of the refusal when the names are the
/// same, `None` when they differ.
pub fn same_branch_refusal(a: &str, b: &str) -> (r: Option<Error>)
    ensures
        r is Some <==> a@ == b@,
        r matches Some(e) ==> e matches Error::Coded { id, message, exits } && id@
            == "usage/collide-same-branch"@ && message@ == a@ + " cannot collide with itself"@
            && string_views(exits@) == seq!["ff collide <a> <b>"@],
{
    if crate::text::str_eq(a, b) {
        let mut exits: Vec<String> = Vec::new();
        exits.push(crate::text::owned("ff collide <a> <b>"));
        let message = crate::text::concat(a, " cannot collide with itself");
        proof {
            assert(string_views(exits@) =~= seq!["ff collide <a> <b>"@]);
        }
        Some(Error::coded("usage/collide-same-branch", message.as_str(), exits))
    } else {
        None
    }
}

/// One side of the pair: judged on the open change's tree when the log
/// holds one that differs from the tip's tree, else on the tip's.
pub fn side_of(name: &str, tip: &Oid, tip_tree: &Oid, open: Option<Oid>) -> (s: Side)
    ensures
        s.name@ == name@,
        s.tip@ == hex_of(tip@),
        match open {
            Some(o) if o@ != tip_tree@ => s.tree@ == hex_of(o@) && s.open,
            _ => s.tree@ == hex_of(tip_tree@) && !s.open,
        },
{
    let (tree, is_open) = match open {
        Some(o) => {
            if o.same(tip_tree) {
                (tip_tree.to_hex(), false)
            } else {
                (o.to_hex(), true)
            }
        },
        None => (tip_tree.to_hex(), false),
    };
    Side { name: crate::text::owned(name), tip: tip.to_hex(), tree, open: is_open }
}

/// The verdict for one pair: unknown when the two share no merge base,
/// clear when the merge against the base conflicts nowhere, and a
/// collision on exactly the conflicting paths otherwise.
pub fn pairing_of(has_base: bool, paths: Vec<String>) -> (p: Pairing)
    ensures
        !has_base ==> p == (Pairing::Unknown { reason: UnknownReason::UnrelatedHistories }),
        has_base && paths@.len() == 0 ==> p == Pairing::Clear,
        has_base && paths@.len() > 0 ==> p == (Pairing::Collide { paths }),
{
    if !has_base {
        Pairing::Unknown { reason: UnknownReason::UnrelatedHistories }
    } else if paths.len() == 0 {
        Pairing::Clear
    } else {
        Pairing::Collide { paths }
    }
}

} // verus!
