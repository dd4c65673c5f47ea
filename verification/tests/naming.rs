use ff_core::branch::{
    buckets, current_refusal, current_to_name, deletion_moves, deletion_summary, exists_refusal, head_on,
    naming_moves, naming_summary, not_found, remote_only, RemoteBranch,
};
use ff_core::branchmeta::{BranchMeta, Session};
use ff_core::edit::{edit_branch, history_refusal, mint_record, mint_reflog, nested_refusal, open_change_refusal};
use ff_core::journal::RefsTable;
use ff_core::linked::add::{add_summary, held_elsewhere, layout, signed_string, unborn_refusal, worktree_branch};
use ff_core::merge::{merge_contended, merge_message, merge_pins, merge_record, merge_standing};
use ff_core::model::{BranchInfo, HeadState};
use ff_core::new::{claims_first, mint_branch_record, target_by_commit, target_by_name, NewTarget};
use ff_core::oid::Oid;

fn oid(b: u8) -> Oid {
    Oid([b; 20])
}

fn hex(b: u8) -> String {
    format!("{b:02x}").repeat(20)
}

fn info(name: &str, anonymous: bool) -> BranchInfo {
    BranchInfo {
        name: name.into(),
        current: false,
        anonymous,
        tip: None,
        subject: None,
        parked: false,
        pending_description: None,
        session: None,
        held: false,
        resolving: false,
        upstream: None,
        future: None,
    }
}

#[test]
fn naming_the_current_branch_moves_its_ref_and_parked_change() {
    assert_eq!(naming_summary("ff/quiet-owl", "login"), "claim ff/quiet-owl as login");
    assert_eq!(naming_summary("old", "new"), "rename old to new");
    let mut table = RefsTable {
        head: "ref:refs/heads/old".into(),
        refs: vec![("refs/fufu/parked/old".into(), hex(9)), ("refs/heads/old".into(), hex(1))],
    };
    let moves = naming_moves(&mut table, "old", "new", &oid(1), Some(oid(9)));
    assert_eq!(moves.len(), 4);
    assert_eq!(moves[0].name, "refs/heads/new");
    assert_eq!(moves[1].new, None);
    assert_eq!(table.head, "ref:refs/heads/new");
    assert_eq!(
        table.refs,
        vec![("refs/fufu/parked/new".to_string(), hex(9)), ("refs/heads/new".to_string(), hex(1))]
    );
    assert_eq!(current_to_name(&HeadState::Detached { commit: hex(1) }).unwrap_err().id(), "repo/detached");
    assert!(head_on(&HeadState::Unborn { ref_name: "refs/heads/x".into() }, "refs/heads/x"));
}

#[test]
fn deleting_a_branch_records_its_ref_and_parked_change() {
    assert_eq!(current_refusal("main", "main").unwrap().id(), "branch/is-current");
    assert!(current_refusal("side", "main").is_none());
    let mut table = RefsTable {
        head: "ref:refs/heads/main".into(),
        refs: vec![("refs/fufu/parked/side".into(), hex(9)), ("refs/heads/side".into(), hex(2))],
    };
    let moves = deletion_moves(&mut table, "side", &oid(2), Some(oid(9)));
    assert_eq!(moves.len(), 2);
    assert!(table.refs.is_empty());
    assert_eq!(deletion_summary("side"), "delete branch side");
    assert_eq!(exists_refusal("x").text(), "a branch named x already exists");
    assert_eq!(not_found("x").text(), "no branch named x");
}

#[test]
fn the_listing_keeps_anonymous_branches_apart() {
    let list = buckets(vec![info("a", false), info("ff/b", true), info("c", false)]);
    let named: Vec<&str> = list.named.iter().map(|b| b.name.as_str()).collect();
    assert_eq!(named, vec!["a", "c"]);
    assert_eq!(list.anonymous[0].name, "ff/b");
}

#[test]
fn empty_metadata_is_no_metadata() {
    assert!(BranchMeta::default().is_empty());
    let meta = BranchMeta { session: Some(Session { onto: "main".into(), at: hex(1) }), ..BranchMeta::default() };
    assert!(!meta.is_empty());
}

#[test]
fn an_editing_session_needs_a_commit_in_the_branch_history() {
    assert_eq!(open_change_refusal().id(), "target/unresolvable");
    assert_eq!(edit_branch(&HeadState::Detached { commit: hex(1) }).unwrap_err().text(), "detached HEAD: an editing session needs a branch to return to");
    let e = nested_refusal(true, "abc", "S").unwrap();
    assert_eq!(e.text(), "already editing abc \"S\": finish or abandon that session before opening another");
    assert!(nested_refusal(false, "abc", "S").is_none());
    assert!(history_refusal(&oid(1), &vec![oid(1)], "abc", "S", "main").is_none());
    assert_eq!(history_refusal(&oid(1), &vec![], "abc", "S", "main").unwrap().id(), "edit/not-in-history");
    let mut table = RefsTable { head: "ref:refs/heads/main".into(), refs: vec![] };
    let (summary, t, meta) = mint_record(&mut table, "ff/s", &oid(1), "0101010", "main");
    assert_eq!(summary, "edit 0101010: session ff/s on main");
    assert_eq!(t.new, Some(hex(1)));
    assert_eq!(meta.session, Some(Session { onto: "main".into(), at: hex(1) }));
    assert_eq!(table.refs, vec![("refs/heads/ff/s".to_string(), hex(1))]);
    assert_eq!(mint_reflog("0101010"), "branch: editing session at 0101010");
}

#[test]
fn a_new_target_is_resolved_without_guessing() {
    let names = vec!["main".to_string(), "side".to_string()];
    assert_eq!(target_by_name(&names, "side", None).unwrap().unwrap(), NewTarget::Existing("side".into()));
    assert_eq!(target_by_name(&names, "side", Some("x")).unwrap().unwrap_err().text(), "-b names a new branch, but side already names one");
    assert!(target_by_name(&names, "abc123", None).is_none());
    assert_eq!(target_by_commit("abc", oid(1), &vec!["main".into()], None, false, "ff/m").unwrap(), NewTarget::Existing("main".into()));
    assert_eq!(
        target_by_commit("abc", oid(1), &vec![], None, false, "ff/m").unwrap(),
        NewTarget::Mint { at: oid(1), name: "ff/m".into(), forked_from: hex(1) }
    );
    assert_eq!(
        target_by_commit("abc", oid(1), &vec![], Some("feat"), true, "ff/m").unwrap_err().text(),
        "a branch named feat already exists"
    );
    assert_eq!(
        target_by_commit("abc", oid(1), &vec!["a".into(), "b".into()], None, false, "ff/m").unwrap_err().text(),
        "abc is the tip of several branches (a, b); name the one to continue"
    );
    assert!(claims_first(Some("x"), "ff/quiet-owl"));
    assert!(!claims_first(Some("x"), "main"));
    let mut table = RefsTable { head: "ref:refs/heads/main".into(), refs: vec![] };
    let (summary, _, reflog) = mint_branch_record(&mut table, "feat", &oid(0xab), "main");
    assert_eq!(summary, "mint branch feat at abababab");
    assert_eq!(reflog, "branch: forked from main");
}

#[test]
fn a_merge_takes_in_only_what_is_not_there() {
    assert_eq!(merge_standing("b", "main", &oid(1), &oid(2), &vec![]).unwrap_err().id(), "merge/unrelated");
    assert_eq!(merge_standing("b", "main", &oid(1), &oid(2), &vec![oid(2)]).unwrap(), true);
    assert_eq!(
        merge_standing("b", "main", &oid(1), &oid(2), &vec![oid(1)]).unwrap_err().text(),
        "b is beneath main, so there is nothing to merge"
    );
    assert_eq!(merge_standing("b", "main", &oid(1), &oid(2), &vec![oid(3)]).unwrap(), false);
    assert_eq!(merge_message(None, "main", "b"), "merge main into b\n");
    assert_eq!(merge_message(Some("mine  "), "main", "b"), "mine\n");
    let mut table = RefsTable { head: "ref:refs/heads/b".into(), refs: vec![("refs/heads/b".into(), hex(1))] };
    let (summary, t, reflog) = merge_record(&mut table, "b", "main", &oid(1), &oid(4));
    assert_eq!(summary, "merge main into b");
    assert_eq!(t.old, Some(hex(1)));
    assert_eq!(reflog, "merge: main into b");
    assert_eq!(table.refs, vec![("refs/heads/b".to_string(), hex(4))]);
    assert_eq!(merge_pins(oid(4), oid(1), oid(2), None), vec![oid(4), oid(1), oid(2)]);
    assert_eq!(merge_contended("b").id(), "ref/contended");
}

#[test]
fn a_worktree_layout_is_what_git_writes() {
    let l = layout("/w/bay", "/r/.git/worktrees/bay", "side", &oid(0xab), "fufu", "fufu@localhost", 1700000000);
    assert_eq!(l.commondir, "../..\n");
    assert_eq!(l.gitdir, "/w/bay/.git\n");
    assert_eq!(l.head, "ref: refs/heads/side\n");
    assert_eq!(l.orig_head, format!("{}\n", hex(0xab)));
    assert_eq!(
        l.log_head,
        format!("0000000000000000000000000000000000000000 {} fufu <fufu@localhost> 1700000000 +0000\tworktree: created from side\n", hex(0xab))
    );
    assert_eq!(l.dot_git, "gitdir: /r/.git/worktrees/bay\n");
    assert_eq!(signed_string(-42), "-42");
    assert_eq!(held_elsewhere("side", "/w").exits(), vec!["git worktree list".to_string()]);
    assert_eq!(unborn_refusal().id(), "worktree/unborn");
    assert_eq!(worktree_branch(Some("side"), true, None, false, "ff/m").unwrap(), ("side".to_string(), false));
    assert_eq!(worktree_branch(None, false, Some("bay"), false, "ff/m").unwrap(), ("bay".to_string(), true));
    assert_eq!(worktree_branch(None, false, Some("bay"), true, "ff/m").unwrap(), ("ff/m".to_string(), true));
    assert_eq!(add_summary("bay", "side"), "add worktree bay on side");
}

fn remote(name: &str, time: i64) -> RemoteBranch {
    RemoteBranch {
        name: name.to_string(),
        remote: "origin".to_string(),
        tip: "0".repeat(40),
        subject: None,
        tip_time: time,
    }
}

#[test]
fn the_remote_bucket_is_untracked_newest_first_and_cut_to_the_limit() {
    let remotes = vec![
        remote("origin/b", 10),
        remote("origin/main", 50),
        remote("origin/a", 10),
        remote("origin/new", 90),
    ];
    let tracking = vec!["origin/main".to_string()];
    let (rows, more) = remote_only(remotes.clone(), &tracking, None);
    let names: Vec<&str> = rows.iter().map(|r| r.name.as_str()).collect();
    assert_eq!(names, vec!["origin/new", "origin/a", "origin/b"]);
    assert_eq!(more, 0);
    let (rows, more) = remote_only(remotes, &tracking, Some(2));
    let names: Vec<&str> = rows.iter().map(|r| r.name.as_str()).collect();
    assert_eq!(names, vec!["origin/new", "origin/a"]);
    assert_eq!(more, 1);
    let (rows, more) = remote_only(vec![], &tracking, Some(0));
    assert!(rows.is_empty());
    assert_eq!(more, 0);
}
