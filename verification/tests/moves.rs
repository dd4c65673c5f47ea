use ff_core::evolog::{hop_accepted, AnchorOp, AnchorStep, AnchorWalk, SegmentLink, Wanted};
use ff_core::absorb::{
    arrange_sources, default_sources, describe_move, fold_hold, Endpoint, into_trunk_refusal, lowest_source, not_in_history, root_refusal, move_hold_summary, move_reword, move_shape,
    nothing_to_move, open_to_open_refusal, run_refusal, spell_from, FoldHold, MoveEnd, MoveOutcome, MoveShape,
    MoveVerb,
};
use ff_core::changestat::{classify, stat_of, ChangeShape, ModeClass};
use ff_core::collide::{pairing_of, same_branch_refusal, side_of, Pairing};
use ff_core::evolog::{fill_short_ids, short_id_of};
use ff_core::futures::UnknownReason;
use ff_core::journal::{pre_snapshot, Taken};
use ff_core::linked::remove::{capture_kept, removal_refusal, removal_summary, worktree_not_found, Capture};
use ff_core::merge::default_message;
use ff_core::model::{ChangeKind, FileStat, SnapEntry};
use ff_core::new::{resolve_now, seconds_or_zero};
use ff_core::oid::Oid;

fn end(depth: i64, short: &str) -> MoveEnd {
    MoveEnd { depth, short: short.to_string() }
}

#[test]
fn the_move_verbs_spell_themselves() {
    assert_eq!(MoveVerb::Absorb.as_str(), "absorb");
    assert_eq!(MoveVerb::Lift.as_str(), "lift");
    assert_eq!(MoveVerb::Absorb.noun(), "absorb into");
    assert_eq!(MoveVerb::Lift.noun(), "lift from");
    assert_eq!(MoveVerb::Absorb.past(), "absorbed");
    assert_eq!(MoveVerb::Lift.past(), "lifted");
    match nothing_to_move(MoveVerb::Lift, "side") {
        MoveOutcome::Nothing { verb, branch } => {
            assert_eq!(verb, "lift");
            assert_eq!(branch, "side");
        }
        other => panic!("unexpected {other:?}"),
    }
}

#[test]
fn sources_are_arranged_deepest_first_without_the_target() {
    let r = arrange_sources(vec![end(1, "b"), end(3, "d"), end(2, "c"), end(3, "d"), end(-1, "")], 2);
    let depths: Vec<i64> = r.iter().map(|e| e.depth).collect();
    assert_eq!(depths, vec![3, 1, -1]);
}

#[test]
fn a_run_with_a_hole_is_refused_and_one_around_the_target_is_not() {
    let target = end(2, "ccc");
    let good = arrange_sources(vec![end(3, "ddd"), end(1, "bbb")], 2);
    assert!(run_refusal(MoveVerb::Absorb, &good, &target).is_none());
    let gap = arrange_sources(vec![end(5, "fff"), end(1, "bbb")], 0);
    let e = run_refusal(MoveVerb::Lift, &gap, &end(0, "aaa")).unwrap();
    assert_eq!(e.id(), "usage/move-gap");
    assert_eq!(e.text(), "the sources are not one run of commits: fff and bbb have commits between them that were not named");
    assert_eq!(e.exits(), vec!["ff lift --from fff~..bbb".to_string()]);
    let with_open = arrange_sources(vec![end(3, "ddd"), end(-1, "")], 5);
    let e = run_refusal(MoveVerb::Absorb, &with_open, &end(5, "fff")).unwrap();
    assert_eq!(e.text(), "the sources are not one run of commits: ddd and @ have commits between them that were not named");
    let only = arrange_sources(vec![end(2, "ccc")], 2);
    let e = run_refusal(MoveVerb::Absorb, &only, &target).unwrap();
    assert_eq!(e.id(), "usage/move-into-self");
    assert_eq!(e.text(), "ccc is the only source and the target: there is nothing to move");
    assert_eq!(e.exits(), vec!["ff absorb --from <revset> --into <rev>".to_string(), "ff log".to_string()]);
}

#[test]
fn the_sources_read_as_a_run() {
    assert_eq!(spell_from(&vec![end(2, "ccc")]), "ccc");
    assert_eq!(spell_from(&vec![end(3, "ddd"), end(2, "ccc")]), "ddd..ccc");
    assert_eq!(spell_from(&vec![end(-1, "")]), "the open change");
    assert_eq!(spell_from(&vec![end(0, "aaa"), end(-1, "")]), "aaa and the open change");
    assert_eq!(describe_move(&vec![end(0, "aaa")], &end(-1, "")), "from aaa into the open change");
}

#[test]
fn the_target_shapes_the_rewrite() {
    let run = vec![end(3, "d"), end(2, "c")];
    assert_eq!(move_shape(&run, &end(4, "e")), MoveShape::Below);
    assert_eq!(move_shape(&run, &end(1, "b")), MoveShape::Above { k: 3 });
    assert_eq!(move_shape(&run, &end(-1, "")), MoveShape::Open);
}

#[test]
fn an_injected_clock_is_the_time() {
    assert_eq!(resolve_now(Some(1_700_000_000)), 1_700_000_000);
    assert!(resolve_now(None) > 0);
}

#[test]
fn a_merge_commit_says_what_went_where() {
    assert_eq!(default_message("main", "side"), "merge main into side");
}

#[test]
fn a_branch_is_not_asked_to_collide_with_itself() {
    let e = same_branch_refusal("side", "side").unwrap();
    assert_eq!(e.id(), "usage/collide-same-branch");
    assert_eq!(e.text(), "side cannot collide with itself");
    assert!(same_branch_refusal("a", "b").is_none());
}

#[test]
fn a_side_is_judged_on_its_open_tree_when_that_differs() {
    let tip = Oid([0x11; 20]);
    let tree = Oid([0x22; 20]);
    let open = Oid([0xab; 20]);
    let s = side_of("a", &tip, &tree, Some(open));
    assert_eq!(s.tip, "11".repeat(20));
    assert_eq!(s.tree, "ab".repeat(20));
    assert!(s.open);
    let s = side_of("a", &tip, &tree, Some(tree));
    assert_eq!(s.tree, "22".repeat(20));
    assert!(!s.open);
    assert_eq!(pairing_of(false, vec![]), Pairing::Unknown { reason: UnknownReason::UnrelatedHistories });
    assert_eq!(pairing_of(true, vec![]), Pairing::Clear);
    assert_eq!(pairing_of(true, vec!["x".into()]), Pairing::Collide { paths: vec!["x".into()] });
}

fn row(path: &str, ins: u32, del: u32) -> FileStat {
    FileStat { path: path.to_string(), from: None, kind: ChangeKind::Modified, insertions: ins, deletions: del, binary: false }
}

#[test]
fn a_diffstat_is_sorted_by_path_and_summed() {
    let s = stat_of(vec![row("b", 1, 2), row("a/z", 3, 0), row("a", 0, 5)]);
    let paths: Vec<&str> = s.files.iter().map(|f| f.path.as_str()).collect();
    assert_eq!(paths, vec!["a", "a/z", "b"]);
    assert_eq!(s.insertions, 4);
    assert_eq!(s.deletions, 7);
}

#[test]
fn changes_are_classified_by_shape() {
    assert_eq!(classify(ChangeShape::Addition), ChangeKind::Added);
    assert_eq!(classify(ChangeShape::Deletion), ChangeKind::Deleted);
    assert_eq!(
        classify(ChangeShape::Modification { previous: ModeClass::File, now: ModeClass::Symlink }),
        ChangeKind::TypeChange
    );
    assert_eq!(classify(ChangeShape::Modification { previous: ModeClass::File, now: ModeClass::File }), ChangeKind::Modified);
    assert_eq!(classify(ChangeShape::Rewrite { copy: true }), ChangeKind::Copied);
    assert_eq!(classify(ChangeShape::Rewrite { copy: false }), ChangeKind::Renamed);
}

#[test]
fn rows_are_abbreviated_by_the_index() {
    let id = "0123456789abcdef";
    assert_eq!(short_id_of(id, None), "01234567");
    assert_eq!(short_id_of(id, Some(2)), "0123");
    assert_eq!(short_id_of(id, Some(10)), "0123456789");
    assert_eq!(short_id_of("abc", Some(6)), "abc");
    let row = SnapEntry {
        id: id.to_string(),
        short_id: String::new(),
        subject: "s".into(),
        time: 5,
        base: None,
        prev: None,
    };
    let out = fill_short_ids(vec![row.clone(), row], &vec![Some(5), None]);
    assert_eq!(out[0].short_id, "01234");
    assert_eq!(out[1].short_id, "01234567");
    assert_eq!(out[1].subject, "s");
}

#[test]
fn the_main_worktree_and_this_one_are_never_removed() {
    let e = removal_refusal("main", "other").unwrap();
    assert_eq!(e.id(), "worktree/is-main");
    let e = removal_refusal("bay", "bay").unwrap();
    assert_eq!(e.id(), "worktree/is-current");
    assert_eq!(e.text(), "bay is the worktree you are in; run this from another one");
    assert!(removal_refusal("bay", "main").is_none());
    assert_eq!(removal_summary("bay"), "remove worktree bay");
}

#[test]
fn a_removal_keeps_the_capture_it_took() {
    assert_eq!(capture_kept("bay", Capture::Created { id: "c1".into() }).unwrap(), Some("c1".to_string()));
    assert_eq!(capture_kept("bay", Capture::NoOp { tip: None }).unwrap(), None);
    let e = capture_kept("bay", Capture::Contended).unwrap_err();
    assert_eq!(e.id(), "worktree/busy");
    assert_eq!(e.text(), "something is running in bay: its operation log is locked");
}

#[test]
fn a_contended_snapshot_aborts_the_verb() {
    assert_eq!(pre_snapshot(Taken::Created { id: "s".into() }).unwrap(), Some("s".to_string()));
    assert_eq!(pre_snapshot(Taken::NoOp).unwrap(), None);
    let e = pre_snapshot(Taken::Contended).unwrap_err();
    assert_eq!(e.text(), "a concurrent ff snapshot is in progress; aborted (nothing was written)");
}

#[test]
fn the_anchor_walk_takes_the_newest_capture_and_skips_unwanted_segments() {
    let b = |x: u8| Some(format!("{x:02x}").repeat(20));
    let wanted = vec![Wanted { id: "c2".into(), base: b(1), tree: Oid([7; 20]) }];
    let mut walk = AnchorWalk::new(wanted, Some(100));
    // A capture on a base nobody wants, with a pointer: hop.
    let op = AnchorOp {
        id: "o3".into(),
        base: b(2),
        tree: Oid([9; 20]),
        time: 300,
        is_capture: true,
        segment_prev: Some(SegmentLink::At(Oid([5; 20]))),
        next: Some(Oid([6; 20])),
    };
    assert_eq!(walk.visit(&op), AnchorStep::Hop(Oid([5; 20])));
    // A verb operation in the wanted segment never answers; it steps.
    let verb = AnchorOp {
        id: "o2".into(),
        base: b(1),
        tree: Oid([7; 20]),
        time: 200,
        is_capture: false,
        segment_prev: None,
        next: Some(Oid([4; 20])),
    };
    assert_eq!(walk.visit(&verb), AnchorStep::Step(Oid([4; 20])));
    // The capture that recorded the content answers, and the walk is done.
    let capture = AnchorOp { id: "o1".into(), is_capture: true, next: None, ..verb.clone() };
    assert_eq!(walk.visit(&capture), AnchorStep::Stop);
    assert_eq!(walk.finish(), vec![("c2".to_string(), "o1".to_string())]);
    assert!(hop_accepted(Some(5), 5));
    assert!(!hop_accepted(Some(6), 5));
    assert!(!hop_accepted(None, 5));
}

#[test]
fn a_move_from_the_open_change_into_itself_is_refused_by_the_verb() {
    assert!(open_to_open_refusal(MoveVerb::Absorb, false, false, false).is_none());
    let e = open_to_open_refusal(MoveVerb::Absorb, false, false, true).unwrap();
    assert_eq!(e.id(), "usage/absorb-into-open");
    assert_eq!(e.text(), "the open change is already where your changes are: name a commit that has closed");
    assert_eq!(e.exits(), vec!["ff absorb".to_string(), "ff commit -m <msg>".to_string()]);
    let e = open_to_open_refusal(MoveVerb::Lift, true, false, true).unwrap();
    assert_eq!(e.id(), "usage/lift-from-open");
    assert_eq!(e.exits(), vec!["ff lift".to_string(), "ff log".to_string()]);
    let e = open_to_open_refusal(MoveVerb::Lift, true, true, true).unwrap();
    assert_eq!(e.id(), "usage/move-into-self");
    assert_eq!(e.text(), "the open change is the only source and the target: there is nothing to move");
    assert_eq!(e.exits(), vec!["ff lift --from <revset> --into <rev>".to_string(), "ff log".to_string()]);
}

#[test]
fn a_default_target_on_trunk_is_refused() {
    let e = into_trunk_refusal(&vec![end(1, "bbb")], "aaa", "main");
    assert_eq!(e.id(), "absorb/into-trunk");
    assert_eq!(e.text(), "the commit under bbb is aaa, on main: name the commit to move into");
    assert_eq!(e.exits(), vec!["ff absorb --into bbb".to_string(), "ff log".to_string()]);
    let e = into_trunk_refusal(&vec![end(1, "bbb"), end(-1, "")], "aaa", "main");
    assert_eq!(e.exits(), vec!["ff absorb --from bbb..@ --into bbb".to_string(), "ff log".to_string()]);
}

#[test]
fn a_move_message_is_cleaned_for_its_target() {
    let (m, pending) = move_reword(MoveVerb::Absorb, false, "fix it  \n\n").unwrap();
    assert_eq!(m.as_deref(), Some("fix it\n"));
    assert_eq!(pending, None);
    let (m, pending) = move_reword(MoveVerb::Lift, true, "wip  \n").unwrap();
    assert_eq!(m, None);
    assert_eq!(pending.as_deref(), Some("wip"));
    let (_, pending) = move_reword(MoveVerb::Lift, true, "   ").unwrap();
    assert_eq!(pending, None);
    let e = move_reword(MoveVerb::Lift, false, " \n ").unwrap_err();
    assert_eq!(e.id(), "usage/needs-message");
    assert_eq!(e.exits(), vec!["ff lift -m <msg>".to_string()]);
}

#[test]
fn a_move_holds_where_its_first_conflicting_fold_lands() {
    let a = vec!["a.txt".to_string()];
    let b = vec!["b.txt".to_string()];
    assert_eq!(fold_hold(a.clone(), b.clone(), true), Some((FoldHold::OpenChange, a.clone())));
    assert_eq!(fold_hold(a.clone(), b.clone(), false), Some((FoldHold::Target, a.clone())));
    assert_eq!(fold_hold(vec![], b.clone(), true), Some((FoldHold::Target, b.clone())));
    assert_eq!(fold_hold(vec![], vec![], true), None);
    assert_eq!(
        move_hold_summary(MoveVerb::Absorb, &vec![end(3, "ddd"), end(2, "ccc")], &end(1, "bbb")),
        "hold absorb from ddd..ccc into bbb"
    );
}

#[test]
fn the_lowest_source_is_the_deepest_and_the_last_of_equals() {
    assert_eq!(lowest_source(&vec![end(-1, ""), end(2, "c"), end(1, "b")]).unwrap(), 1);
    assert_eq!(lowest_source(&vec![end(2, "c"), end(2, "c")]).unwrap(), 1);
    assert_eq!(lowest_source(&vec![end(-1, "")]).unwrap(), 0);
    let e = lowest_source(&vec![]).unwrap_err();
    assert_eq!(e.id(), "usage/revset-empty-set");
    assert_eq!(e.text(), "--from names no revision");
    assert_eq!(e.exits(), vec!["ff log".to_string()]);
}

#[test]
fn an_end_off_the_line_or_at_the_root_is_refused() {
    let e = root_refusal(MoveVerb::Lift, "aaa");
    assert_eq!(e.id(), "target/unresolvable");
    assert_eq!(e.text(), "aaa is the root commit: there is nothing under it to lift from");
    assert_eq!(e.exits(), vec!["ff lift --into <rev>".to_string()]);
    let e = not_in_history("bbb", "ccc");
    assert_eq!(e.id(), "rewrite/not-in-history");
    assert_eq!(e.text(), "bbb is not in the history of ccc: there is nothing to rewrite there");
    assert_eq!(e.exits(), vec!["ff log".to_string(), "ff log -r <rev>".to_string()]);
    let e = worktree_not_found("wt9");
    assert_eq!(e.id(), "worktree/not-found");
    assert_eq!(e.text(), "no linked worktree named wt9");
}

#[test]
fn an_end_spelled_reads_back_as_itself() {
    assert_eq!(Endpoint::Open.spell(), "@");
    assert!(matches!(Endpoint::parse("@"), Ok(Endpoint::Open)));
    let id = Oid([0xab; 20]);
    let spelled = Endpoint::Commit(id).spell();
    assert_eq!(spelled, "ab".repeat(20));
    match Endpoint::parse(&spelled) {
        Ok(Endpoint::Commit(back)) => assert_eq!(back, id),
        other => panic!("unexpected {other:?}"),
    }
    match Endpoint::parse(&"AB".repeat(20)) {
        Ok(Endpoint::Commit(back)) => assert_eq!(back, id),
        other => panic!("unexpected {other:?}"),
    }
    let e = Endpoint::parse("abc").unwrap_err();
    assert_eq!(e.id(), "internal");
    assert!(!e.text().is_empty());
    assert_ne!(e.text(), "abc");
    let e = Endpoint::parse(&"zz".repeat(20)).unwrap_err();
    assert_ne!(e.text(), "zz".repeat(20));
}

#[test]
fn a_bare_move_takes_the_verbs_default_sources() {
    let tip = Oid([7; 20]);
    let r = default_sources(MoveVerb::Absorb, None, tip);
    assert!(matches!(r.as_slice(), [Endpoint::Open]));
    let r = default_sources(MoveVerb::Lift, None, tip);
    assert!(matches!(r.as_slice(), [Endpoint::Commit(id)] if *id == tip));
    let r = default_sources(MoveVerb::Lift, Some(vec![Endpoint::Open, Endpoint::Commit(tip)]), Oid([1; 20]));
    assert_eq!(r.len(), 2);
    assert!(matches!(r[1], Endpoint::Commit(id) if id == tip));
}

#[test]
fn a_clock_reading_becomes_seconds_and_before_the_epoch_is_zero() {
    assert_eq!(seconds_or_zero(Some(1_700_000_000)), 1_700_000_000);
    assert_eq!(seconds_or_zero(None), 0);
    assert_eq!(seconds_or_zero(Some(u64::MAX)), -1);
}
