//! The plain read model: what every verb reports. No git types leak out of
//! here: object ids are lowercase hex strings, paths are strings.

use vstd::prelude::*;
use crate::futures::{At, Future};
use crate::journal::RefTransition;

verus! {

#[derive(Debug, Clone)]
pub enum HeadState {
    /// HEAD points at a branch that has no commits yet.
    Unborn { ref_name: String },
    /// HEAD is on a branch.
    Branch {
        /// Short branch name, e.g. `feat/x/y`.
        name: String,
        /// Full ref name, e.g. `refs/heads/feat/x/y`.
        ref_name: String,
        commit: String,
    },
    /// HEAD points directly at a commit.
    Detached { commit: String },
}

/// A git operation in progress (a rebase, a merge, a bisect), named for what
/// git calls it.
#[derive(Debug, Clone, Copy, PartialEq, Eq)]
pub enum InProgress {
    ApplyMailbox,
    ApplyMailboxRebase,
    Bisect,
    CherryPick,
    CherryPickSequence,
    Merge,
    Rebase,
    RebaseInteractive,
    Revert,
    RevertSequence,
}

#[derive(Debug, Clone)]
pub struct Upstream {
    /// Short tracking ref name, e.g. `origin/main`.
    pub ref_name: String,
    /// The upstream is configured but its ref no longer exists.
    pub gone: bool,
    pub ahead: usize,
    pub behind: usize,
}

#[derive(Debug, Clone, Copy, PartialEq, Eq)]
pub enum ChangeKind {
    Added,
    Modified,
    Deleted,
    TypeChange,
    Renamed,
    Copied,
    IntentToAdd,
}

#[derive(Debug, Clone)]
pub struct StatusEntry {
    pub path: String,
    /// Source path for renames and copies.
    pub from: Option<String>,
    pub kind: ChangeKind,
}

/// One file's contribution to the open change, as `ff status` prints it.
#[derive(Debug, Clone)]
pub struct FileStat {
    pub path: String,
    /// Source path for renames and copies.
    pub from: Option<String>,
    pub kind: ChangeKind,
    pub insertions: u32,
    pub deletions: u32,
    /// Line counts are meaningless — both counts are 0.
    pub binary: bool,
}

/// The open change as a diffstat: HEAD's tree against the capture chain tip's.
#[derive(Debug, Clone)]
pub struct ChangeStat {
    pub files: Vec<FileStat>,
    pub insertions: u32,
    pub deletions: u32,
}

#[derive(Debug, Clone)]
pub struct Status {
    pub head: HeadState,
    pub operation: Option<InProgress>,
    pub upstream: Option<Upstream>,
    pub staged: Vec<StatusEntry>,
    pub unstaged: Vec<StatusEntry>,
    pub untracked: Vec<String>,
    pub conflicts: Vec<String>,
}

#[derive(Debug, Clone)]
pub struct LogEntry {
    pub id: String,
    pub short_id: String,
    pub subject: String,
    pub author_name: String,
    pub author_email: String,
    /// Author time, seconds since the unix epoch.
    pub time: i64,
}

/// One capture operation, as the timeline views render it.
#[derive(Debug, Clone)]
pub struct SnapEntry {
    pub id: String,
    pub short_id: String,
    pub subject: String,
    /// Committer time, seconds since the unix epoch.
    pub time: i64,
    /// The HEAD commit the capture was taken on (base edge), if any.
    pub base: Option<String>,
    /// The previous capture on this branch, if any.
    pub prev: Option<String>,
}

/// What a restore pulled from: a commit, or an operation.
#[derive(Debug, Clone)]
pub struct RestoreOrigin {
    /// `commit` or `operation`.
    pub space: String,
    pub id: String,
    pub short_id: String,
    pub subject: String,
    /// Committer time, seconds since the unix epoch.
    pub time: i64,
}

/// The open change: the working tree summarized as one row (jj's `@`).
#[derive(Debug, Clone)]
pub struct OpenChange {
    /// Chain/branch name, or `@detached`.
    pub branch: String,
    /// Chain tip snapshot id (hex), when the chain exists.
    pub id: Option<String>,
    /// The HEAD commit (hex); `None` when unborn.
    pub base: Option<String>,
    pub base_short: Option<String>,
    /// The pending description, when one is set.
    pub subject: Option<String>,
    /// Chain tip committer time, seconds since the unix epoch.
    pub time: Option<i64>,
    /// The tip tree equals the HEAD tree (or no chain exists yet).
    pub clean: bool,
    /// The hash of the commit the close would mint, when something is
    /// pending and a user identity is configured.
    pub pending: Option<String>,
}

/// The result of a worktree restore.
#[derive(Debug, Clone)]
pub struct RestoreReport {
    pub origin: RestoreOrigin,
    pub restored: Vec<String>,
    pub deleted: Vec<String>,
    pub skipped_gitlinks: Vec<String>,
    pub pre_op: Option<String>,
}

/// Per-branch view of one trim pass.
#[derive(Debug, Clone)]
pub struct TrimPointer {
    pub ref_name: String,
    pub branch: String,
    pub dropped: usize,
    pub kept: usize,
    pub trash_ref: Option<String>,
    pub deleted: bool,
}

/// The one log's retention within a trim pass.
#[derive(Debug, Clone)]
pub struct TrimLog {
    pub dropped: usize,
    pub kept: usize,
    pub trash_ref: Option<String>,
    pub deleted: bool,
}

#[derive(Debug, Clone)]
pub struct TrimReport {
    pub pointers: Vec<TrimPointer>,
    pub log: Option<TrimLog>,
    pub dry_run: bool,
}

/// The result of a move along the log: `ff undo`, `ff redo`, `ff op restore`.
#[derive(Debug, Clone)]
pub struct RewindReport {
    pub landed: String,
    pub landed_summary: String,
    pub landed_kind: String,
    pub stepped: usize,
    pub stepped_summary: Option<String>,
    pub stepped_kind: Option<String>,
    pub stepped_ops: usize,
    pub collapsed: usize,
    pub forward: bool,
    pub refs: Vec<RefTransition>,
    pub head_moved: Option<String>,
    pub files: Vec<String>,
    pub warnings: Vec<String>,
    pub pre_op: Option<String>,
}

/// The result of `ff op revert`.
#[derive(Debug, Clone)]
pub struct RevertReport {
    pub reverted: String,
    pub reverted_summary: String,
    pub refs: Vec<RefTransition>,
    pub pre_op: Option<String>,
}

/// The result of `ff describe` (pending-description edit).
#[derive(Debug, Clone)]
pub struct DescribeReport {
    pub branch: String,
    pub old: Option<String>,
    pub new: Option<String>,
}

/// The result of `ff describe <rev>`: a reword, and the restack it forced.
#[derive(Debug, Clone)]
pub struct RewordReport {
    pub branch: String,
    pub old: String,
    pub new: String,
    pub subject: String,
    pub restacked: usize,
    pub moved: Vec<String>,
    pub published: usize,
}

/// A commit a rewrite dropped because it introduces nothing.
#[derive(Debug, Clone)]
pub struct Dropped {
    /// The commit as it stood before the rewrite, full sha.
    pub old: String,
}

/// The result of `ff absorb`.
#[derive(Debug, Clone)]
pub enum AbsorbOutcome {
    Absorbed(AbsorbReport),
    Held(HeldReport),
    NothingToAbsorb { branch: String },
}

/// An absorb that landed.
#[derive(Debug, Clone)]
pub struct AbsorbReport {
    pub branch: String,
    pub into: String,
    pub new: Option<String>,
    pub subject: String,
    pub restacked: usize,
    pub moved: Vec<String>,
    pub published: usize,
    pub paths: Vec<String>,
    pub still_open: bool,
    pub dropped: Vec<Dropped>,
}

/// The result of `ff restack`.
#[derive(Debug, Clone)]
pub enum RestackOutcome {
    Restacked(Box<RestackReport>),
    NothingToRestack { branch: String, base: String },
    Held(HeldReport),
}

/// A restack that landed.
#[derive(Debug, Clone)]
pub struct RestackReport {
    pub branch: String,
    pub base: String,
    pub onto: String,
    pub reaimed: bool,
    pub previous_parent: Option<String>,
    pub replayed: usize,
    pub behind: usize,
    pub fast_forward: bool,
    pub new_tip: String,
    pub moved: Vec<String>,
    pub published: usize,
    pub published_on: Option<String>,
    pub parked: Option<Parked>,
    pub files: usize,
    pub still_open: bool,
    pub dropped: Vec<Dropped>,
}

/// A parked change the restack leaves untouched, disclosed not resolved.
#[derive(Debug, Clone)]
pub struct Parked {
    pub stash: String,
    pub applies: bool,
}

/// The result of `ff edit`.
#[derive(Debug, Clone)]
pub enum EditOutcome {
    Opened(EditReport),
    Switched(SwitchReport),
}

/// An editing session that opened.
#[derive(Debug, Clone)]
pub struct EditReport {
    pub session: String,
    pub editing: String,
    pub subject: String,
    pub onto: String,
    pub ahead: usize,
    pub parked: Option<String>,
}

/// The result of `ff resolve`.
#[derive(Debug, Clone)]
pub enum ResolveOutcome {
    Opened(ResolveReport),
    Released(ReleasedReport),
    Abandoned(AbandonedHold),
}

/// A resolution session that opened.
#[derive(Debug, Clone)]
pub struct ResolveReport {
    pub branch: String,
    pub verb: String,
    pub files: Vec<String>,
    pub regions: usize,
    pub steps: usize,
    pub of: usize,
    pub tangled: Option<String>,
    pub parked: Option<String>,
}

/// A hold released because the rewrite applies cleanly now.
#[derive(Debug, Clone)]
pub struct ReleasedReport {
    pub branch: String,
    pub verb: String,
}

/// A hold dropped on purpose.
#[derive(Debug, Clone)]
pub struct AbandonedHold {
    pub branch: String,
    pub verb: String,
    pub was_resolving: bool,
}

/// The result of `ff done`.
#[derive(Debug, Clone)]
pub enum DoneOutcome {
    Done(DoneReport),
    Held(HeldReport),
    Abandoned(AbandonReport),
    Resolved(ResolvedReport),
}

/// A resolution that landed.
#[derive(Debug, Clone)]
pub struct ResolvedReport {
    pub branch: String,
    pub verb: String,
    pub fixed: usize,
    pub replayed: usize,
    pub new_tip: String,
    pub still_held: Option<HeldReport>,
}

/// A session that landed.
#[derive(Debug, Clone)]
pub struct DoneReport {
    pub session: String,
    pub editing: String,
    pub amended: Option<String>,
    pub subject: String,
    pub onto: String,
    pub replayed: usize,
    pub moved: Vec<String>,
    pub new_tip: String,
    pub unchanged: bool,
    pub published: usize,
    pub published_on: Option<String>,
    pub arrival: ArrivalReport,
    pub files: usize,
    pub dropped: Vec<Dropped>,
}

/// A session that was dropped without landing.
#[derive(Debug, Clone)]
pub struct AbandonReport {
    pub session: String,
    pub editing: String,
    pub subject: String,
    pub onto: String,
    pub stashed: Option<String>,
    pub arrival: ArrivalReport,
    pub files: usize,
}

/// The result of a rewrite that conflicted: nothing was written, the intent
/// is waiting.
#[derive(Debug, Clone)]
pub struct HeldReport {
    /// The verb that held: `restack`, `done`, `absorb`, `lift`.
    pub verb: String,
    pub branch: String,
    pub at: At,
    pub paths: Vec<String>,
    pub of: usize,
}

/// The result of `ff lift`.
#[derive(Debug, Clone)]
pub enum LiftOutcome {
    Lifted(LiftReport),
    Held(HeldReport),
    NothingToLift { from: String },
}

/// A lift that landed.
#[derive(Debug, Clone)]
pub struct LiftReport {
    pub branch: String,
    pub from: String,
    pub new: Option<String>,
    pub subject: String,
    pub restacked: usize,
    pub moved: Vec<String>,
    pub published: usize,
    pub paths: Vec<String>,
    pub dropped: Vec<Dropped>,
}

/// The result of `ff start`.
#[derive(Debug, Clone)]
pub struct StartReport {
    pub minted: String,
    pub forked_from: String,
    pub parked: Option<String>,
}

/// One branch row for `ff branch`.
#[derive(Debug, Clone)]
pub struct BranchInfo {
    pub name: String,
    pub current: bool,
    pub anonymous: bool,
    pub tip: Option<String>,
    pub subject: Option<String>,
    pub parked: bool,
    pub pending_description: Option<String>,
    pub session: Option<String>,
    pub held: bool,
    pub resolving: bool,
    pub upstream: Option<Upstream>,
    pub future: Option<Future>,
}

/// `ff branch` listing: named branches and anonymous ones, segregated.
#[derive(Debug, Clone)]
pub struct BranchList {
    pub named: Vec<BranchInfo>,
    pub anonymous: Vec<BranchInfo>,
}

/// The result of claiming an anonymous branch.
#[derive(Debug, Clone)]
pub struct ClaimReport {
    pub from: String,
    pub to: String,
    pub pre_op: Option<String>,
}

/// The result of deleting a branch.
#[derive(Debug, Clone)]
pub struct BranchDeleteReport {
    pub name: String,
    pub tip: String,
    pub trash_ref: Option<String>,
    pub parked_demoted: Option<String>,
    pub pre_op: Option<String>,
}

/// How an arrival (resuming a parked change) went.
#[derive(Debug, Clone)]
pub enum ArrivalReport {
    /// Nothing was parked on the target.
    NothingParked,
    Restored { stash: String, files: Vec<String> },
    StillParked { stash: String, paths: Vec<String> },
    Invalidated { stash: String },
}

/// The result of `ff switch`.
#[derive(Debug, Clone)]
pub struct SwitchReport {
    pub from: String,
    pub to: String,
    pub parked: Option<String>,
    pub arrival: ArrivalReport,
    pub pre_op: Option<String>,
}

/// The result of `ff commit` — the close.
#[derive(Debug, Clone)]
pub enum CommitOutcome {
    Closed {
        id: String,
        short_id: String,
        branch: String,
        subject: String,
        files_changed: usize,
        claimed_from: Option<String>,
        pre_op: Option<String>,
    },
}

/// One ref that moved outside fufu, absorbed by reconciliation.
#[derive(Debug, Clone)]
pub struct ForeignChange {
    /// Full ref name, or `HEAD`.
    pub name: String,
    pub old: Option<String>,
    pub new: Option<String>,
    /// git's own reflog message for the move, when one exists.
    pub hint: Option<String>,
}

/// What one reconciliation pass found and did.
#[derive(Debug, Clone)]
pub struct ReconcileReport {
    pub bootstrapped: bool,
    pub reinitialized: bool,
    pub foreign: Vec<ForeignChange>,
    pub entry: Option<String>,
    pub warnings: Vec<String>,
}

impl ReconcileReport {
    /// Nothing to report: no writes, no foreign motion, no warnings.
    pub fn is_quiet(&self) -> (r: bool)
        ensures
            r == (!self.bootstrapped && !self.reinitialized && self.foreign@.len() == 0
                && self.warnings@.len() == 0),
    {
        !self.bootstrapped && !self.reinitialized && self.foreign.len() == 0 && self.warnings.len()
            == 0
    }
}

/// One operation, for the operation-log view (`ff op log`).
#[derive(Debug, Clone)]
pub struct OpEntry {
    pub id: String,
    pub short_id: String,
    pub kind: String,
    pub verb: String,
    pub summary: String,
    pub time: i64,
    pub branch: Option<String>,
    pub session: Option<String>,
    pub undo_of: Option<String>,
}

/// What `ff sync` did, one part per axis plus the exit.
#[derive(Debug, Clone)]
pub struct SyncReport {
    pub branch: String,
    pub fetched: bool,
    pub remote: RemoteAxis,
    pub base: BaseAxis,
    pub pending: Pending,
}

/// What the outgoing half has left, as sync sees it.
#[derive(Debug, Clone, Copy, PartialEq, Eq)]
pub enum Pending {
    NoRemote,
    Unpublished,
    Ahead(usize),
}

/// What `ff publish` reports: one branch, one exit.
#[derive(Debug, Clone)]
pub struct PublishReport {
    pub branch: String,
    pub publish: Publish,
    pub dry_run: bool,
}

/// The remote axis: the shared copy of this same branch.
#[derive(Debug, Clone)]
pub enum RemoteAxis {
    NoRemote,
    Gone { name: String },
    Yours { name: String, ahead: usize, behind: usize },
    Ran { name: String, outcome: RestackOutcome },
}

/// The base axis: what this work sits on.
#[derive(Debug, Clone)]
pub enum BaseAxis {
    NoBase,
    Skipped,
    Ran { name: String, outcome: RestackOutcome },
}

/// What `ff publish` did with the branch, or why it did nothing.
#[derive(Debug, Clone)]
pub enum Publish {
    NoRemote,
    Blocked,
    UpToDate,
    Create { remote: String, remote_branch: String, tip: String },
    Push { remote: String, remote_branch: String, lease: String, tip: String },
}

} // verus!
