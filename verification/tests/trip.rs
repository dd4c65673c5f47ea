use ff_core::branchmeta::Session;
use ff_core::done::{roll_record, round_verdict, unresolved_refusal, RoundVerdict};
use ff_core::futures::At;
use ff_core::held::{record_clearing, spent_branch, ArrivePlan, Clearing, Held, Intent, Resolve, Return, STASH_REF};
use ff_core::journal::{OpKind, OpRecord, RefsTable, StashEffect};
use ff_core::oid::Oid;

fn oid(n: u8) -> Oid {
    Oid([n; 20])
}

fn session(onto: &str) -> Session {
    Session { onto: onto.to_string(), at: oid(9).to_hex() }
}

fn restack() -> Intent {
    Intent::Restack { branch: "feat".to_string(), onto: "refs/heads/main".to_string() }
}

#[test]
fn a_restack_returns_to_its_branch_and_brings_the_park_back() {
    let r = Return::plan("s1", "feat", &restack(), oid(1), Some(oid(2)), Some(session("feat")), None, Some(oid(3)))
        .unwrap();
    assert_eq!(r.session, "s1");
    assert_eq!(r.session_tip, oid(2));
    assert_eq!(r.session_meta.onto, "feat");
    assert_eq!(r.worktree, oid(1));
    assert_eq!(r.hold_on, "feat");
    assert_eq!(r.to, "feat");
    assert_eq!(r.arrive_on.as_deref(), Some("feat"));
    assert!(r.spent.is_none());
    assert_eq!(spent_branch(&restack(), "feat"), None);
}

#[test]
fn an_absorb_returns_to_the_sessions_base_and_spends_its_park() {
    let intent = Intent::Absorb { into: "abc".to_string(), paths: vec![] };
    assert_eq!(spent_branch(&intent, "feat").as_deref(), Some("feat"));
    let r = Return::plan("s1", "feat", &intent, oid(1), Some(oid(2)), Some(session("feat")), None, Some(oid(3)))
        .unwrap();
    assert_eq!(r.to, "feat");
    assert!(r.arrive_on.is_none());
    assert_eq!(r.spent, Some(("feat".to_string(), oid(3))));
    let r = Return::plan("s1", "feat", &intent, oid(1), Some(oid(2)), Some(session("feat")), None, None).unwrap();
    assert!(r.spent.is_none());
}

#[test]
fn a_done_lands_where_the_editing_session_lands() {
    let intent = Intent::Done { session: "edit-1".to_string() };
    assert_eq!(spent_branch(&intent, "feat").as_deref(), Some("edit-1"));
    let r = Return::plan("s1", "edit-1", &intent, oid(1), Some(oid(2)), Some(session("edit-1")), Some(session("main")), Some(oid(4)))
        .unwrap();
    assert_eq!(r.to, "main");
    assert_eq!(r.arrive_on.as_deref(), Some("main"));
    assert_eq!(r.spent, Some(("edit-1".to_string(), oid(4))));
}

#[test]
fn a_trip_without_its_session_is_an_internal_error() {
    let e = Return::plan("s1", "feat", &restack(), oid(1), None, Some(session("feat")), None, None).unwrap_err();
    assert_eq!(e.text(), "internal: the session branch s1 is gone");
    let e = Return::plan("s1", "feat", &restack(), oid(1), Some(oid(2)), None, None, None).unwrap_err();
    assert_eq!(e.text(), "internal: s1 carries no session");
    let intent = Intent::Done { session: "edit-1".to_string() };
    let e = Return::plan("s1", "x", &intent, oid(1), Some(oid(2)), Some(session("edit-1")), None, None).unwrap_err();
    assert_eq!(e.text(), "internal: edit-1 carries no session");
}

#[test]
fn the_trip_ends_on_the_restored_change_or_the_landed_tree() {
    let restore = ArrivePlan::Restore { stash: oid(5), target_wip: oid(6), target_index: oid(7) };
    assert_eq!(Return::end_trees(&restore, oid(8)), (oid(6), oid(7)));
    assert_eq!(Return::end_trees(&ArrivePlan::Conflict { stash: oid(5) }, oid(8)), (oid(8), oid(8)));
}

#[test]
fn the_trip_folds_into_the_write_ahead() {
    let mut r = Return::plan("s", "feat", &restack(), oid(1), Some(oid(2)), Some(session("feat")), None, None).unwrap();
    r.spent = Some(("main".to_string(), oid(4)));
    let edits = r.edits();
    assert_eq!(edits, vec![("refs/heads/s".to_string(), oid(2)), ("refs/fufu/parked/main".to_string(), oid(4))]);

    let mut planned = RefsTable::default();
    planned.head = "ref:refs/heads/s".to_string();
    planned.insert("refs/heads/s", &oid(2).to_hex());
    planned.insert("refs/heads/feat", &oid(1).to_hex());
    planned.insert("refs/fufu/parked/feat", &oid(3).to_hex());
    planned.insert("refs/fufu/parked/main", &oid(4).to_hex());
    planned.insert(STASH_REF, &oid(4).to_hex());
    let mut record = OpRecord::new(OpKind::Op, "resolve", "land", 7);
    let mut pins = vec![oid(1)];
    let mut lines = vec![oid(10), oid(3), oid(4), oid(3)];
    let arrive = ArrivePlan::Restore { stash: oid(3), target_wip: oid(6), target_index: oid(7) };
    r.fold_into(&mut planned, &mut record, &mut pins, &mut lines, &arrive);
    let t = record.resolve_session.clone().unwrap();

    assert_eq!(t.branch, "s");
    assert_eq!(t.old.unwrap().onto, "feat");
    assert!(t.new.is_none());
    assert_eq!(planned.head, "ref:refs/heads/feat");
    assert_eq!(planned.get("refs/heads/s"), None);
    assert_eq!(planned.get("refs/fufu/parked/feat"), None);
    assert_eq!(planned.get("refs/fufu/parked/main"), None);
    assert_eq!(planned.get("refs/heads/feat"), Some(oid(1).to_hex()));
    assert_eq!(planned.get(STASH_REF), Some(oid(3).to_hex()));
    assert_eq!(record.head, Some(("ref:refs/heads/s".to_string(), "ref:refs/heads/feat".to_string())));
    let names: Vec<String> = record.refs.iter().map(|t| t.name.clone()).collect();
    assert_eq!(names, vec!["refs/heads/s", "refs/fufu/parked/feat", "refs/fufu/parked/main"]);
    assert_eq!(record.refs[1].old, Some(oid(3).to_hex()));
    assert!(record.refs.iter().all(|t| t.new.is_none()));
    assert_eq!(record.stash.len(), 2);
    match &record.stash[0] {
        StashEffect::Drop { branch, stash } => {
            assert_eq!(branch, "feat");
            assert_eq!(stash, &oid(3).to_hex());
        }
        other => panic!("unexpected {other:?}"),
    }
    assert_eq!(pins, vec![oid(1), oid(2), oid(3), oid(4)]);
    assert_eq!(lines, vec![oid(10), oid(3)]);

    // With nothing left on the stack, the stash ref goes.
    let mut lines = vec![oid(4)];
    let mut planned = RefsTable::default();
    planned.insert(STASH_REF, &oid(4).to_hex());
    let mut record = OpRecord::new(OpKind::Op, "resolve", "land", 7);
    let mut pins = vec![];
    r.arrive_on = None;
    r.fold_into(&mut planned, &mut record, &mut pins, &mut lines, &ArrivePlan::Nothing);
    assert!(lines.is_empty());
    assert_eq!(planned.get(STASH_REF), None);
    assert_eq!(pins, vec![oid(2), oid(4)]);
}

fn resolve(from: u8) -> Resolve {
    Resolve {
        hold: Held { intent: restack(), at: At::OpenChange, paths: vec![], time: 0 },
        from: oid(from).to_hex(),
        steps: vec!["one".to_string()],
        open: None,
        session: "s1".to_string(),
    }
}

#[test]
fn a_clearing_landing_writes_both_transitions_into_its_record() {
    let mut record = OpRecord::new(OpKind::Op, "done", "land", 7);
    let c = Clearing { branch: "feat".to_string(), held: None, resolve: Some(resolve(1)) };
    record_clearing(&mut record, c);
    assert!(record.held.is_none());
    let t = record.resolving.clone().unwrap();
    assert_eq!(t.branch, "feat");
    assert_eq!(t.old.unwrap().from, oid(1).to_hex());
    assert!(t.new.is_none());
    assert_eq!(record.verb, "done");
}

#[test]
fn a_round_records_the_session_and_the_resolution_with_both_sides() {
    let r = roll_record(
        vec!["ff".to_string(), "done".to_string()],
        "s1",
        &oid(2),
        &oid(3),
        session("feat"),
        Session { onto: "feat".to_string(), at: oid(3).to_hex() },
        "feat",
        resolve(1),
        resolve(4),
        "two",
        9,
    );
    assert_eq!(r.verb, "done");
    assert_eq!(r.summary, "roll the resolution of feat: \"two\" now conflicts");
    assert_eq!(r.refs.len(), 1);
    assert_eq!(r.refs[0].name, "refs/heads/s1");
    assert_eq!(r.refs[0].old, Some(oid(2).to_hex()));
    assert_eq!(r.refs[0].new, Some(oid(3).to_hex()));
    let s = r.resolve_session.clone().unwrap();
    assert_eq!(s.branch, "s1");
    assert_eq!(s.new.unwrap().at, oid(3).to_hex());
    let t = r.resolving.clone().unwrap();
    assert_eq!(t.old.unwrap().from, oid(1).to_hex());
    assert_eq!(t.new.unwrap().from, oid(4).to_hex());
    assert!(r.head.is_none() && r.held.is_none());
    assert_eq!(r.argv, vec!["ff", "done"]);
    assert_eq!(r.time, 9);
}

#[test]
fn a_round_is_refused_rolled_or_landed_in_that_order() {
    let files = vec!["a.rs".to_string(), "b.rs".to_string()];
    assert_eq!(round_verdict(false, files.clone(), Some(1)), RoundVerdict::Moved);
    assert_eq!(round_verdict(true, files.clone(), Some(1)), RoundVerdict::Unresolved(files.clone()));
    assert_eq!(round_verdict(true, vec![], Some(1)), RoundVerdict::Roll(1));
    assert_eq!(round_verdict(true, vec![], None), RoundVerdict::Land);
    let e = unresolved_refusal(&files);
    assert_eq!(e.id(), "held/unresolved");
    assert_eq!(e.text(), "a.rs, b.rs still carry conflict markers: fix them, then ff done");
    assert_eq!(unresolved_refusal(&vec!["a.rs".to_string()]).text(), "a.rs still carries conflict markers: fix them, then ff done");
    assert_eq!(e.exits(), vec!["ff status".to_string(), "ff resolve --abandon".to_string()]);
}
