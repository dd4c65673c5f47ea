use ff_core::guard::{bare_refusal, close_refusal, mid_operation, session_commit_refusal, Finish};
use ff_core::done::done_guard;
use ff_core::fold::{fold_guard, FoldFacts};
use ff_core::model::{HeadState, InProgress};

#[test]
fn an_operation_in_progress_is_named_and_the_way_out_follows_the_verb() {
    let e = mid_operation(InProgress::Rebase, &Finish::Rewrite);
    assert_eq!(e.id(), "repo/mid-operation");
    assert_eq!(
        e.text(),
        "a Rebase is in progress: finish it with git (git rebase --abort / git merge --abort); fufu owns merges in a later phase"
    );
    assert!(e.exits().is_empty());
    assert_eq!(
        mid_operation(InProgress::CherryPickSequence, &Finish::Commit).text(),
        "a CherryPickSequence is in progress: finish it with git (git commit / git merge --abort); fufu owns merges in a later phase"
    );
    assert_eq!(
        mid_operation(InProgress::Merge, &Finish::Done).text(),
        "a Merge is in progress: use git status, then finish or abort that operation with Git"
    );
    assert_eq!(
        mid_operation(InProgress::Bisect, &Finish::There("/w/other".to_string())).text(),
        "a Bisect is in progress in /w/other: finish it with git there first"
    );
    assert_eq!(InProgress::ApplyMailboxRebase.name(), "ApplyMailboxRebase");
}

#[test]
fn a_bare_repository_has_nothing_to_act_on() {
    let e = bare_refusal("fold");
    assert_eq!(e.id(), "repo/bare");
    assert_eq!(e.text(), "bare repository: nothing to fold");
}

#[test]
fn a_close_refuses_in_order_before_capturing() {
    let session = Some(("edit-1".to_string(), "abc1234".to_string(), "fix".to_string()));
    let e = close_refusal(true, Some(InProgress::Merge), session.clone(), Some("x".to_string())).unwrap();
    assert_eq!(e.text(), "bare repository: nothing to commit");
    let e = close_refusal(false, Some(InProgress::Merge), session.clone(), None).unwrap();
    assert_eq!(e.id(), "repo/mid-operation");
    let e = close_refusal(false, None, session.clone(), Some("x".to_string())).unwrap();
    assert_eq!(e.id(), "session/open");
    assert_eq!(e.text(), "edit-1 is an editing session on abc1234 \"fix\": a commit here would land somewhere no verb can describe");
    assert_eq!(e.exits(), vec!["ff done".to_string(), "ff done --abandon".to_string(), "ff switch <branch>".to_string()]);
    let e = close_refusal(false, None, None, Some("fix the bug".to_string())).unwrap();
    assert_eq!(e.id(), "usage/no-such-path");
    assert!(close_refusal(false, None, None, None).is_none());
    assert_eq!(session_commit_refusal("s", "1", "t").id(), "session/open");
}

fn on_feat() -> HeadState {
    HeadState::Branch {
        name: "feat".to_string(),
        ref_name: "refs/heads/feat".to_string(),
        commit: "c0ffee".to_string(),
    }
}

fn clear_fold() -> FoldFacts {
    FoldFacts {
        bare: false,
        in_progress: None,
        head: on_feat(),
        trunk: Some("main".to_string()),
        source_session: false,
        source_resolving: None,
        source_held: None,
        target_full: "refs/heads/main".to_string(),
        target_name: "main".to_string(),
        holder: None,
        stay: false,
        target_session: false,
        target_resolving: None,
    }
}

#[test]
fn a_fold_refuses_in_the_order_the_verb_checks() {
    assert_eq!(fold_guard(&clear_fold()).unwrap(), ("feat".to_string(), "c0ffee".to_string()));

    let mut f = clear_fold();
    f.bare = true;
    f.in_progress = Some(InProgress::Rebase);
    assert_eq!(fold_guard(&f).unwrap_err().text(), "bare repository: nothing to fold");
    f.bare = false;
    assert_eq!(fold_guard(&f).unwrap_err().id(), "repo/mid-operation");
    f.in_progress = None;
    f.head = HeadState::Detached { commit: "c0ffee".to_string() };
    assert_eq!(fold_guard(&f).unwrap_err().id(), "repo/detached");
    f.head = HeadState::Unborn { ref_name: "refs/heads/feat".to_string() };
    assert_eq!(fold_guard(&f).unwrap_err().id(), "target/unresolvable");

    let mut f = clear_fold();
    f.trunk = Some("feat".to_string());
    f.source_session = true;
    assert_eq!(fold_guard(&f).unwrap_err().id(), "fold/trunk-source");
    f.trunk = None;
    f.source_resolving = Some("resolve-1".to_string());
    let e = fold_guard(&f).unwrap_err();
    assert_eq!(e.text(), "feat is an editing session: folding it would land the commit being edited");
    f.source_session = false;
    f.source_held = Some("your open change".to_string());
    let e = fold_guard(&f).unwrap_err();
    assert_eq!(e.id(), "held/resolving");
    assert_eq!(e.text(), "a resolution of feat is open on resolve-1");
    f.source_resolving = Some(String::new());
    assert_eq!(fold_guard(&f).unwrap_err().id(), "held/expired");
    f.source_resolving = None;
    f.target_full = "refs/heads/feat".to_string();
    let e = fold_guard(&f).unwrap_err();
    assert_eq!(e.text(), "feat already has a rewrite held at your open change: nothing was folded");

    let mut f = clear_fold();
    f.target_full = "refs/heads/feat".to_string();
    f.target_name = "feat".to_string();
    assert_eq!(fold_guard(&f).unwrap_err().id(), "usage/fold-into-self");
    f.target_full = "refs/remotes/origin/main".to_string();
    f.target_name = "origin/main".to_string();
    f.holder = Some("/w/other".to_string());
    assert_eq!(fold_guard(&f).unwrap_err().text(), "origin/main lives on a remote: fold lands into a local branch only");

    let mut f = clear_fold();
    f.holder = Some("/w/other".to_string());
    f.target_session = true;
    let e = fold_guard(&f).unwrap_err();
    assert_eq!(e.text(), "'main' is already used by worktree at '/w/other'");
    f.stay = true;
    f.target_resolving = Some("resolve-2".to_string());
    assert_eq!(fold_guard(&f).unwrap_err().text(), "main is an editing session: nothing folds into one");
    f.target_session = false;
    assert_eq!(fold_guard(&f).unwrap_err().text(), "a resolution of main is open on resolve-2");
    f.target_resolving = None;
    assert!(fold_guard(&f).is_ok());
}

#[test]
fn a_finish_refuses_in_the_order_the_verb_checks() {
    let e = done_guard(true, Some(InProgress::Merge), &on_feat()).unwrap_err();
    assert_eq!(e.text(), "bare repository: nothing to finish");
    let e = done_guard(false, Some(InProgress::Merge), &on_feat()).unwrap_err();
    assert_eq!(e.text(), "a Merge is in progress: use git status, then finish or abort that operation with Git");
    let e = done_guard(false, None, &HeadState::Detached { commit: "c0ffee".to_string() }).unwrap_err();
    assert_eq!(e.id(), "session/none");
    assert_eq!(done_guard(false, None, &on_feat()).unwrap(), ("feat".to_string(), "c0ffee".to_string()));
}
