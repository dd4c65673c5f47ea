use ff_core::fold::{companion_text, fold_contended, other_tree_busy, other_tree_conflict, other_tree_moved};
use ff_core::cascade::walk::{CascadeWalk, Rewrite, SkipReason};
use ff_core::cascade::Stack;
use ff_core::describe::{
    describe_branch, pending_change, pending_text, published_count, reword_branch, reword_message, reword_pins,
    reword_report, reword_summary, unchanged_reword,
};
use ff_core::done::{
    amended_of, done_pins, done_summary, done_transitions, grown_refusal, history_refusal, landed_files,
    landing_carried, moved_branches, next_conflict, nothing_to_land, region_files, replayed_of, round_conflicts,
    round_split, roll_summary, session_of, ChainStep, Region,
};
use ff_core::fold::{
    branch_transition, conflict_refusal, fold_source, fold_summary, holder_refusal, plan_fold_table,
    plan_stay_table, repoint_cascade, resolving_refusal, summary_suffix, target_refusal, trunk_refusal,
};
use ff_core::futures::At;
use ff_core::held::Intent;
use ff_core::journal::{RefTransition, RefsTable};
use ff_core::linked::Holder;
use ff_core::model::{ArrivalReport, HeadState};
use ff_core::oid::Oid;

fn oid(b: u8) -> Oid {
    Oid([b; 20])
}

fn hex(b: u8) -> String {
    format!("{b:02x}").repeat(20)
}

fn stack(links: &[(&str, &str)]) -> Stack {
    Stack { links: links.iter().map(|(c, p)| (c.to_string(), p.to_string())).collect() }
}

#[test]
fn a_cascade_replays_children_parent_first_and_leaves_stopped_subtrees_alone() {
    let s = stack(&[("a", "main"), ("b", "a"), ("c", "main"), ("d", "c"), ("w", "main")]);
    let holders = vec![Holder { id: "bay".into(), branch: "w".into(), path: "/bay".into() }];
    let mut walk = CascadeWalk::new(s, holders, "main", oid(1), oid(2), 100);
    let first = walk.next().unwrap();
    assert_eq!(first.branch, "a");
    assert!(walk.held(false));
    assert_eq!(walk.tip(Some(oid(3))), Some(oid(3)));
    assert!(walk.against_new(&oid(3), &vec![oid(1)]));
    assert!(walk.against_old(&oid(3), &vec![oid(1)]));
    assert!(walk.ranged(false, 1));
    walk.moved(oid(3), oid(4), vec![Rewrite { old: oid(3), new: oid(4) }], vec![], vec![], 0, None, None);
    let second = walk.next().unwrap();
    assert_eq!(second.branch, "c");
    assert!(walk.held(false));
    walk.tip(Some(oid(5)));
    assert!(walk.against_new(&oid(5), &vec![oid(1)]));
    assert!(walk.against_old(&oid(5), &vec![oid(1)]));
    assert!(walk.ranged(false, 2));
    walk.hold(At::OpenChange, vec!["f".into()], 2);
    let third = walk.next().unwrap();
    assert_eq!(third.branch, "b");
    assert_eq!(third.base, "a");
    assert_eq!(third.base_new, oid(4));
    assert!(!walk.against_new(&oid(6), &vec![oid(4)]));
    assert!(walk.next().is_none());
    let plan = walk.finish();
    let moved: Vec<&str> = plan.report.moved.iter().map(|m| m.branch.as_str()).collect();
    assert_eq!(moved, vec!["a"]);
    assert_eq!(plan.report.held[0].branch, "c");
    assert_eq!(plan.report.held[0].left_alone, vec!["d".to_string()]);
    assert_eq!(plan.report.held[0].report.verb, "restack");
    assert_eq!(plan.report.skipped[0].branch, "w");
    assert_eq!(plan.report.skipped[0].reason, SkipReason::Worktree { path: "/bay".into() });
    assert_eq!(plan.report.unchanged, vec!["b".to_string()]);
    assert_eq!(plan.carried[0].name, "refs/heads/a");
    assert_eq!(plan.carried[0].new, Some(hex(4)));
    assert_eq!(plan.pins, vec![oid(4), oid(3)]);
    match &plan.holds[0].new.as_ref().unwrap().intent {
        Intent::Restack { branch, onto } => {
            assert_eq!(branch, "c");
            assert_eq!(onto, "refs/heads/main");
        }
        other => panic!("unexpected {other:?}"),
    }
}

#[test]
fn a_branch_with_nothing_shared_or_a_merge_is_skipped() {
    let s = stack(&[("a", "main"), ("b", "main")]);
    let mut walk = CascadeWalk::new(s, vec![], "main", oid(1), oid(2), 0);
    walk.next().unwrap();
    assert!(!walk.against_new(&oid(3), &vec![]));
    walk.next().unwrap();
    assert!(walk.against_new(&oid(4), &vec![oid(9)]));
    assert!(walk.against_old(&oid(4), &vec![oid(9)]));
    assert!(!walk.ranged(true, 3));
    let plan = walk.finish();
    assert_eq!(plan.report.skipped[0].reason, SkipReason::Unrelated);
    assert_eq!(plan.report.skipped[1].reason, SkipReason::MergeInRange);
}

#[test]
fn a_fold_refuses_what_it_cannot_land() {
    let e = fold_source(&HeadState::Detached { commit: hex(1) }).unwrap_err();
    assert_eq!(e.id(), "repo/detached");
    let (name, _) = fold_source(&HeadState::Branch { name: "f".into(), ref_name: "refs/heads/f".into(), commit: hex(1) }).unwrap();
    assert_eq!(name, "f");
    assert_eq!(trunk_refusal("main", Some("main")).unwrap().id(), "fold/trunk-source");
    assert!(trunk_refusal("f", Some("main")).is_none());
    assert_eq!(target_refusal("f", "refs/heads/f", "f").unwrap().id(), "usage/fold-into-self");
    let e = target_refusal("f", "refs/remotes/origin/main", "origin/main").unwrap();
    assert_eq!(e.text(), "origin/main lives on a remote: fold lands into a local branch only");
    assert!(target_refusal("f", "refs/heads/main", "main").is_none());
    let e = holder_refusal("main", Some("/bay"), false).unwrap();
    assert_eq!(e.text(), "'main' is already used by worktree at '/bay'");
    assert_eq!(e.exits(), vec!["ff fold main --stay".to_string(), "ff worktree".to_string()]);
    assert!(holder_refusal("main", Some("/bay"), true).is_none());
    let e = resolving_refusal("f", Some("ff/resolve/f")).unwrap();
    assert_eq!(e.id(), "held/resolving");
    assert_eq!(e.text(), "a resolution of f is open on ff/resolve/f");
    assert_eq!(resolving_refusal("f", Some("")).unwrap().id(), "held/expired");
    let e = conflict_refusal("f", "main", "your open change", &vec!["a".into(), "b".into()]);
    assert_eq!(e.text(), "f would conflict with main at your open change (a, b); nothing was folded");
}

#[test]
fn the_cascade_a_fold_rides_names_the_target_for_the_source() {
    let s = stack(&[("k", "f")]);
    let mut walk = CascadeWalk::new(s, vec![], "f", oid(1), oid(2), 0);
    walk.next().unwrap();
    walk.held(false);
    walk.tip(Some(oid(3)));
    walk.against_new(&oid(3), &vec![oid(1)]);
    walk.against_old(&oid(3), &vec![oid(1)]);
    walk.ranged(false, 1);
    walk.hold(At::OpenChange, vec![], 1);
    let plan = repoint_cascade(walk.finish(), "f", "main");
    assert_eq!(plan.report.held[0].base, "main");
    match &plan.holds[0].new.as_ref().unwrap().intent {
        Intent::Restack { onto, .. } => assert_eq!(onto, "refs/heads/main"),
        other => panic!("unexpected {other:?}"),
    }
}

#[test]
fn a_fold_records_its_moves_and_its_table() {
    assert!(branch_transition("main", &oid(1), &oid(1)).is_none());
    let t = branch_transition("main", &oid(1), &oid(2)).unwrap();
    assert_eq!(t.name, "refs/heads/main");
    assert_eq!(t.old, Some(hex(1)));
    assert_eq!(summary_suffix(0), "");
    assert_eq!(summary_suffix(3), ", and 3 above it");
    assert_eq!(fold_summary("f", "main", None, 0), "fold f into main");
    assert_eq!(fold_summary("f", "main", Some("/bay"), 2), "fold f into main (in /bay), and 2 above it");
    let mut table = RefsTable {
        head: "ref:refs/heads/f".into(),
        refs: vec![
            ("refs/fufu/parked/f".into(), hex(7)),
            ("refs/heads/f".into(), hex(1)),
            ("refs/heads/main".into(), hex(2)),
        ],
    };
    plan_fold_table(&mut table, "f", "main", &oid(3), true);
    assert_eq!(table.head, "ref:refs/heads/main");
    assert_eq!(table.refs, vec![("refs/heads/main".to_string(), hex(3))]);
    let mut table = RefsTable { head: "ref:refs/heads/f".into(), refs: vec![("refs/heads/f".into(), hex(1))] };
    plan_stay_table(&mut table, "f", true, "main", true, &oid(3));
    assert_eq!(table.refs, vec![("refs/heads/f".to_string(), hex(3))]);
}

#[test]
fn a_session_lands_what_it_changed() {
    assert_eq!(session_of(&HeadState::Detached { commit: hex(1) }).unwrap_err().id(), "session/none");
    assert!(grown_refusal("s", "abc", Some(oid(1)), Some(oid(1))).is_none());
    let e = grown_refusal("s", "abc", Some(oid(1)), Some(oid(2))).unwrap();
    assert_eq!(e.id(), "session/moved");
    assert_eq!(e.text(), "s has commits of its own since the session opened: finishing would amend abc and leave them behind");
    assert!(history_refusal(&oid(1), &vec![oid(1)], "abc", "x", "main").is_none());
    let e = history_refusal(&oid(1), &vec![oid(2)], "abc", "x", "main").unwrap();
    assert_eq!(e.text(), "abc \"x\" is no longer in main's history: this session has nothing to land onto");
    assert!(nothing_to_land(&oid(1), &oid(1), false));
    assert!(!nothing_to_land(&oid(1), &oid(1), true));
}

#[test]
fn what_the_amended_commit_became() {
    let rewrites = vec![Rewrite { old: oid(1), new: oid(2) }, Rewrite { old: oid(3), new: oid(4) }];
    assert_eq!(amended_of(true, &rewrites, &vec![], &oid(3)).unwrap(), Some(oid(4)));
    assert_eq!(amended_of(true, &rewrites, &vec![oid(5)], &oid(5)).unwrap(), None);
    assert_eq!(amended_of(true, &rewrites, &vec![], &oid(6)).unwrap_err().text(), "the session's commit was not in the rewrite plan");
    assert_eq!(amended_of(false, &rewrites, &vec![], &oid(6)).unwrap(), Some(oid(6)));
    assert_eq!(replayed_of(3, true), 2);
    assert_eq!(replayed_of(0, true), 0);
    assert_eq!(replayed_of(3, false), 3);
}

#[test]
fn a_landing_records_its_transitions() {
    let carried = vec![
        RefTransition { name: "refs/heads/main".into(), old: Some(hex(1)), new: Some(hex(2)) },
        RefTransition { name: "refs/heads/s".into(), old: Some(hex(3)), new: Some(hex(4)) },
        RefTransition { name: "refs/heads/other".into(), old: Some(hex(5)), new: Some(hex(6)) },
    ];
    let kept = landing_carried(carried, "s");
    assert_eq!(kept.len(), 2);
    assert_eq!(moved_branches(&kept, "refs/heads/main"), vec!["other".to_string()]);
    let all = done_transitions(kept, "s", &oid(3));
    assert_eq!(all.len(), 3);
    assert_eq!(all[2].name, "refs/heads/s");
    assert_eq!(all[2].new, None);
    assert_eq!(done_summary(false, "abc", "main", 0), "done: abc on main");
    assert_eq!(done_summary(false, "abc", "main", 2), "done: abc on main, and 2 above it");
    assert_eq!(done_summary(true, "abc", "main", 2), "done --abandon: abc on main");
    let pins = done_pins(&vec![Rewrite { old: oid(1), new: oid(2) }], oid(7), oid(8), Some(oid(9)));
    assert_eq!(pins, vec![oid(2), oid(7), oid(8), oid(9)]);
    let arrival = ArrivalReport::Restored { stash: "x".into(), files: vec!["a".into(), "b".into()] };
    assert_eq!(landed_files(3, &arrival), 5);
    assert_eq!(landed_files(3, &ArrivalReport::NothingParked), 3);
}

#[test]
fn a_round_names_its_conflicts_per_step() {
    let steps = vec![
        ChainStep { old: hex(1), subject: "one".into() },
        ChainStep { old: hex(2), subject: "two".into() },
        ChainStep { old: hex(3), subject: "three".into() },
    ];
    let regions = vec![
        Region { step: 2, path: "b".into() },
        Region { step: 0, path: "z".into() },
        Region { step: 2, path: "a".into() },
        Region { step: 2, path: "b".into() },
    ];
    assert_eq!(region_files(&regions), vec!["a".to_string(), "b".to_string(), "z".to_string()]);
    let c = round_conflicts(&steps, &regions);
    assert_eq!(c.len(), 2);
    assert_eq!(c[0].subject, "one");
    assert_eq!(c[1].id, hex(3));
    assert_eq!(c[1].paths, vec!["a".to_string(), "b".to_string()]);
    let (fixed, keep, shown) = round_split(&steps, &vec![0, 0, 2], &vec![0, 1, 2], 1, true, true);
    assert_eq!(fixed, vec!["one".to_string()]);
    assert_eq!(keep, vec![true, false, false]);
    assert_eq!(shown, vec!["two".to_string(), "three".to_string()]);
    assert_eq!(next_conflict(&vec![false, true, true], false), Some(1));
    assert_eq!(next_conflict(&vec![false, false], true), Some(2));
    assert_eq!(next_conflict(&vec![false], false), None);
    assert_eq!(roll_summary("f", "two"), "roll the resolution of f: \"two\" now conflicts");
}

#[test]
fn a_description_is_kept_trimmed_and_rewording_needs_one() {
    assert_eq!(pending_text(Some("fix  \n".into())), Some("fix".to_string()));
    assert_eq!(pending_text(Some(" \n".into())), None);
    assert!(pending_change("main", Some("x".into()), Some("x".into())).is_none());
    let (summary, t) = pending_change("main", None, Some("x".into())).unwrap();
    assert_eq!(summary, "describe pending change on main");
    assert_eq!(t.new, Some("x".to_string()));
    let (summary, _) = pending_change("main", Some("x".into()), None).unwrap();
    assert_eq!(summary, "clear pending description on main");
    assert_eq!(describe_branch(&HeadState::Unborn { ref_name: "refs/heads/new".into() }).unwrap(), "new");
    assert_eq!(describe_branch(&HeadState::Detached { commit: hex(1) }).unwrap_err().id(), "repo/detached");
    assert_eq!(reword_message("  \n").unwrap_err().id(), "usage/needs-message");
    let (m, s) = reword_message("Subject\n\nbody  \n\n").unwrap();
    assert_eq!(m, "Subject\n\nbody\n");
    assert_eq!(s, "Subject");
    assert_eq!(reword_branch(&HeadState::Unborn { ref_name: "refs/heads/x".into() }).unwrap_err().id(), "target/unresolvable");
}

#[test]
fn a_reword_reports_its_restack() {
    assert_eq!(reword_summary("abc", "main", "S"), "reword abc on main: S");
    let rewrites = vec![Rewrite { old: oid(1), new: oid(2) }, Rewrite { old: oid(3), new: oid(4) }];
    assert_eq!(reword_pins(&rewrites, oid(5)), vec![oid(2), oid(4), oid(5)]);
    let carried = vec![
        RefTransition { name: "refs/heads/main".into(), old: Some(hex(3)), new: Some(hex(4)) },
        RefTransition { name: "refs/heads/top".into(), old: Some(hex(3)), new: Some(hex(4)) },
    ];
    let r = reword_report("main".into(), &oid(1), "S".into(), &rewrites, &carried, 1);
    assert_eq!(r.new, hex(2));
    assert_eq!(r.restacked, 1);
    assert_eq!(r.moved, vec!["top".to_string()]);
    let u = unchanged_reword("main".into(), &oid(1), "S".into());
    assert_eq!(u.old, u.new);
    assert_eq!(published_count(&vec![true, false, true]), 2);
}

#[test]
fn the_other_worktree_is_checked_before_stay_writes_anything() {
    let e = other_tree_busy("/bay", true);
    assert_eq!(e.text(), "something is running in /bay: its operation log is locked; nothing was written");
    let e = other_tree_busy("/bay", false);
    assert_eq!(e.text(), "something is running in /bay: its operation log is contended; nothing was written");
    let here = HeadState::Branch { name: "main".into(), ref_name: "refs/heads/main".into(), commit: hex(1) };
    assert!(other_tree_moved(&here, "main", &hex(1), "/bay").is_none());
    let e = other_tree_moved(&here, "main", &hex(2), "/bay").unwrap();
    assert_eq!(e.text(), "/bay moved off main while fold was planning; nothing was written");
    let e = other_tree_conflict("main", "/bay", &vec!["a".into()]);
    assert_eq!(e.text(), "main's open change in /bay would conflict with the fold: a; nothing was changed");
    assert_eq!(
        companion_text(true, "bay", "/bay", "main", "f", "0101010"),
        "the fold's other half is on bay's chain (/bay): main keeps the commits; ff undo there takes them back"
    );
    assert_eq!(
        companion_text(false, "main", "/here", "main", "f", "0101010"),
        "the fold's other half is on main's chain (/here): f keeps sitting on the new tip; ff undo there puts it back at 0101010"
    );
    assert_eq!(fold_contended().id(), "ref/contended");
}
