//! The verified core of fufu: change ids and their letters alphabet, the
//! journal's ref table, the snapshot id index, stacks of branches, holds,
//! and the decisions the verbs make, each stated over a mathematical model.

pub mod absorb;
pub mod branch;
pub mod branchmeta;
pub mod bytes;
pub mod cascade;
pub mod changeid;
pub mod changestat;
pub mod close;
pub mod collide;
pub mod describe;
pub mod done;
pub mod edit;
pub mod error;
pub mod evolog;
pub mod fold;
pub mod futures;
pub mod guard;
pub mod held;
pub mod hex;
pub mod history;
pub mod hooks;
pub mod idindex;
pub mod index;
pub mod journal;
pub mod linked;
pub mod log;
pub mod map;
pub mod measure;
pub mod merge;
pub mod message;
pub mod model;
pub mod new;
pub mod oid;
pub mod snapid;
pub mod text;

use vstd::prelude::*;

verus! {
} // verus!
