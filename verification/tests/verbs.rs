use ff_core::journal::RefsTable;
use ff_core::oid::Oid;
use ff_core::branch::{heads_ref, is_anonymous, validate_name};
use ff_core::close::{
    empty_refusal, landing_branch, plan_close, landing_choice, no_such_path, normalize_message, reflog_message, subject_of,
    OpenCommit, Remint,
};
use ff_core::futures::At;
use ff_core::held::{already_held, clearing_transitions, expired, verb_of, where_held, Clearing, Held, Intent};
use ff_core::hooks::{declined, message_plan, prepare_args, MsgSource, Verify, Window};
use ff_core::index::{IndexBackup, OnDrop};
use ff_core::measure::{merge_measure, Against, Fallback, measure_of};
use ff_core::error::Error;

#[test]
fn a_message_is_cleaned_like_git_cleans_it() {
    assert_eq!(normalize_message("fix it  \n\n\n"), "fix it\n");
    assert_eq!(normalize_message(" \n\t"), "");
    assert_eq!(normalize_message("a\nb"), "a\nb\n");
    assert_eq!(normalize_message("a  \nb\n\n"), "a\nb\n");
    assert_eq!(normalize_message("  x\t\n\n  y \r\n"), "  x\n\n  y\n");
    let once = normalize_message("x \n");
    assert_eq!(normalize_message(&once), once);
}

#[test]
fn the_subject_is_the_first_line() {
    assert_eq!(subject_of("first\nsecond\n"), "first");
    assert_eq!(subject_of(""), "(no description)");
}

#[test]
fn a_clean_tree_closes_nothing_and_says_why() {
    let e = empty_refusal("main", None, &vec![]);
    assert_eq!(e.id(), "commit/empty");
    assert_eq!(e.text(), "nothing to close on main: the tree matches HEAD, and fufu writes no empty commit");
    assert_eq!(e.exits(), vec!["ff status".to_string(), "ff describe -m <message>".to_string()]);
    let e = empty_refusal("main", Some("wip"), &vec!["a".into(), "b".into()]);
    assert_eq!(
        e.text(),
        "nothing to close under a, b on main: those paths match HEAD, and fufu writes no empty commit; the pending description stays put"
    );
}

#[test]
fn a_sentence_in_the_path_slot_suggests_the_flag() {
    let e = no_such_path("fix the bug");
    assert_eq!(e.text(), "no path here goes by \"fix the bug\": `ff commit` takes file and directory paths");
    assert_eq!(e.exits(), vec!["ff commit -m \"fix the bug\"".to_string(), "ff status".to_string()]);
    assert_eq!(no_such_path("src").exits(), vec!["ff status".to_string(), "ff commit".to_string()]);
    assert_eq!(e.exit_code(), 2);
}

#[test]
fn a_named_close_claims_an_anonymous_branch_and_forks_a_named_one() {
    let a = landing_branch(None, false, "main").unwrap();
    assert_eq!(a.target_branch, "main");
    let a = landing_branch(Some("feat"), false, "ff/abc").unwrap();
    assert_eq!(a.claim_from.as_deref(), Some("ff/abc"));
    assert!(!a.created_branch);
    let a = landing_branch(Some("feat"), false, "main").unwrap();
    assert!(a.created_branch && a.claim_from.is_none());
    let e = landing_branch(Some("feat"), true, "main").unwrap_err();
    assert_eq!(e.text(), "a branch named feat already exists");
}

#[test]
fn the_open_commit_lands_only_when_it_is_what_the_close_writes() {
    let same = OpenCommit::Present { same_tree: true, same_message: true };
    assert_eq!(landing_choice(same, false, false, false), (true, None));
    assert_eq!(landing_choice(same, true, false, false), (false, Some(Remint::Signed)));
    assert_eq!(landing_choice(OpenCommit::Absent, false, false, false), (false, None));
    let msg = OpenCommit::Present { same_tree: true, same_message: false };
    assert_eq!(landing_choice(msg, false, false, true), (false, Some(Remint::HookMessage)));
    assert_eq!(landing_choice(msg, false, false, false), (false, None));
    assert_eq!(reflog_message(false, "x"), "commit (initial): x");
}

#[test]
fn branch_names() {
    assert!(is_anonymous("ff/abc"));
    assert!(!is_anonymous("main"));
    assert_eq!(heads_ref("main"), "refs/heads/main");
    assert!(validate_name("feature/x").is_ok());
    let e = validate_name("bad..name").unwrap_err();
    assert_eq!(e.id(), "branch/invalid-name");
    assert!(e.text().starts_with("invalid branch name \"bad..name\": "));
}

fn held(intent: Intent) -> Held {
    Held { intent, at: At::OpenChange, paths: vec![], time: 0 }
}

#[test]
fn a_hold_names_its_verb() {
    assert_eq!(verb_of(&held(Intent::Restack { branch: "b".into(), onto: "refs/heads/main".into() })), "restack");
    assert_eq!(verb_of(&held(Intent::Lift { from: "x".into(), paths: vec![] })), "lift");
    let w = where_held(&At::Commit { id: "x".into(), subject: "fix".into() }, "abc1234");
    assert_eq!(w, "abc1234 \"fix\"");
    let e = already_held("side", &w, "restacked");
    assert_eq!(e.text(), "side already has a rewrite held at abc1234 \"fix\": nothing was restacked");
    assert_eq!(e.exit_code(), 3);
    let e = expired("done", &Error::msg("gone"));
    assert_eq!(e.text(), "the held done cannot be replanned: gone; the hold is stale");
}

#[test]
fn a_clearing_records_what_stood() {
    let c = Clearing { branch: "side".into(), held: Some(held(Intent::Done { session: "s".into() })), resolve: None };
    let (h, r) = clearing_transitions(c);
    let h = h.unwrap();
    assert_eq!(h.branch, "side");
    assert!(h.old.is_some() && h.new.is_none());
    assert!(r.is_none());
}

#[test]
fn no_verify_gates_two_hooks_only() {
    assert!(!Verify::Skip.runs("pre-commit"));
    assert!(!Verify::Skip.runs("commit-msg"));
    assert!(Verify::Skip.runs("prepare-commit-msg"));
    assert!(Verify::Run.runs("commit-msg"));
    assert_eq!(message_plan(true, true, Verify::Skip), (true, false));
    assert_eq!(prepare_args("F", &MsgSource::Commit("abc")), vec!["F", "commit", "abc"]);
    assert_eq!(prepare_args("F", &MsgSource::Unspecified), vec!["F"]);
    let e = declined("pre-commit", "absorb");
    assert_eq!(e.exits(), vec!["ff absorb --no-verify".to_string()]);
}

#[test]
fn a_window_puts_the_index_back_unless_it_landed() {
    let b = IndexBackup::new("idx".into(), Some(vec![1, 2]));
    assert!(matches!(b.on_drop(), OnDrop::Write { bytes, .. } if bytes == vec![1, 2]));
    let mut w = Window { backup: IndexBackup::new("idx".into(), None) };
    w.landed();
    assert!(matches!(w.backup.on_drop(), OnDrop::Keep));
    assert!(matches!(IndexBackup::new("idx".into(), None).on_drop(), OnDrop::Remove { .. }));
}

#[test]
fn a_merge_falls_back_at_its_first_failed_step() {
    assert_eq!(merge_measure(&vec![Some(vec![]), Some(vec![])]).word(), "auto-merge");
    match merge_measure(&vec![Some(vec![]), None, Some(vec!["a".into()])]) {
        Against::FirstParent(Fallback::NoBase) => {}
        other => panic!("{other:?}"),
    }
    match merge_measure(&vec![Some(vec!["p".into()])]) {
        Against::FirstParent(Fallback::Conflicts(p)) => assert_eq!(p, vec!["p".to_string()]),
        other => panic!("{other:?}"),
    }
    assert_eq!(Against::Parent.word(), "parent");
}

#[test]
fn a_commit_is_measured_by_how_many_parents_it_has() {
    let p = vec![Oid([1; 20]), Oid([2; 20])];
    let (first, empty, merged) = (Oid([3; 20]), Oid([4; 20]), Oid([5; 20]));
    let m = measure_of(&vec![], first, empty, &vec![], merged);
    assert_eq!(m.tree, empty);
    assert_eq!(m.against.word(), "parent");
    assert!(m.commit.is_none());
    let m = measure_of(&p[..1].to_vec(), first, empty, &vec![], merged);
    assert_eq!((m.tree, m.commit), (first, Some(p[0])));
    let m = measure_of(&p, first, empty, &vec![Some(vec![])], merged);
    assert_eq!((m.tree, m.commit), (merged, None));
    assert_eq!(m.against.word(), "auto-merge");
    let m = measure_of(&p, first, empty, &vec![None], merged);
    assert_eq!((m.tree, m.commit), (first, Some(p[0])));
    assert_eq!(m.against.word(), "first-parent");
}

#[test]
fn a_cleaned_message_cleans_to_itself() {
    for m in ["a  \nb\n\n", "x \t\n\n  y  \n", "", " \n", "one"] {
        let once = normalize_message(m);
        assert_eq!(normalize_message(&once), once);
        assert!(once.is_empty() || (once.ends_with('\n') && !once[..once.len() - 1].ends_with(char::is_whitespace)));
    }
}

#[test]
fn a_close_plans_its_table_and_transitions() {
    let c = Oid([1; 20]);
    let h = Oid([2; 20]);
    let p = Oid([3; 20]);
    let mut t = RefsTable::default();
    t.head = "ref:refs/heads/wip-1".to_string();
    t.insert("refs/heads/wip-1", &h.to_hex());
    t.insert("refs/fufu/parked/wip-1", &p.to_hex());
    let (tr, head) = plan_close(&mut t, "wip-1", "feat", Some("wip-1"), Some(p), Some(h), false, &c);
    assert_eq!(tr.len(), 2);
    assert_eq!(tr[0].name, "refs/heads/wip-1");
    assert_eq!(tr[0].old, Some(h.to_hex()));
    assert_eq!(tr[0].new, None);
    assert_eq!(tr[1].name, "refs/heads/feat");
    assert_eq!(tr[1].old, Some(h.to_hex()));
    assert_eq!(tr[1].new, Some(c.to_hex()));
    assert!(head.is_none());
    assert_eq!(t.get("refs/heads/wip-1"), None);
    assert_eq!(t.get("refs/fufu/parked/wip-1"), None);
    assert_eq!(t.get("refs/fufu/parked/feat"), Some(p.to_hex()));
    assert_eq!(t.get("refs/heads/feat"), Some(c.to_hex()));
    assert_eq!(t.head, "ref:refs/heads/wip-1");

    let mut t = RefsTable::default();
    t.head = "ref:refs/heads/main".to_string();
    let (tr, head) = plan_close(&mut t, "main", "side", None, None, Some(h), true, &c);
    assert_eq!(tr.len(), 1);
    assert_eq!(tr[0].old, None);
    assert_eq!(head, Some(("ref:refs/heads/main".to_string(), "ref:refs/heads/side".to_string())));
    assert_eq!(t.head, "ref:refs/heads/side");
}
