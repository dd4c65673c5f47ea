use ff_core::linked::path::{as_git, plain};
use ff_core::linked::{head_branch_of, live_ids, orphans, owned_elsewhere, pick_id};

#[test]
fn a_git_path_keeps_a_unix_name_with_a_backslash_in_it() {
    // Only meaningful where `/` is the separator, which is where a
    // backslash is a legal character in a name.
    if std::path::MAIN_SEPARATOR == '/' {
        assert_eq!(as_git(r"/tmp/a\b/bay", std::path::MAIN_SEPARATOR), r"/tmp/a\b/bay");
    }
}

#[test]
fn a_git_path_never_carries_the_native_separator() {
    let native = format!("{0}tmp{0}bay{0}src", std::path::MAIN_SEPARATOR);
    let rendered = as_git(&native, std::path::MAIN_SEPARATOR);
    assert!(!rendered.contains(std::path::MAIN_SEPARATOR) || std::path::MAIN_SEPARATOR == '/');
    assert_eq!(as_git(r"C:\work\bay", '\\'), "C:/work/bay");
}

#[test]
fn a_path_with_no_prefix_is_returned_as_it_stands() {
    assert_eq!(plain("/tmp/bay"), "/tmp/bay");
    assert_eq!(plain(r"\\?\C:\dir"), r"C:\dir");
    assert_eq!(plain(r"\\?\UNC\server\share"), r"\\?\UNC\server\share");
}

#[test]
fn state_keyed_by_a_held_branch_is_owned_elsewhere() {
    let held = vec!["side".to_string()];
    assert!(owned_elsewhere("refs/heads/side", &held));
    assert!(owned_elsewhere("refs/fufu/parked/side", &held));
    assert!(!owned_elsewhere("refs/heads/main", &held));
    assert!(!owned_elsewhere("refs/tags/side", &held));
}

#[test]
fn a_head_file_names_its_branch_short() {
    assert_eq!(head_branch_of("ref: refs/heads/side\n").as_deref(), Some("side"));
    assert_eq!(head_branch_of("6e50901ae01a2c2071423876bb8fccecfe175c69\n"), None);
    assert_eq!(head_branch_of("ref: refs/tags/v1\n"), None);
}

#[test]
fn a_taken_worktree_name_gets_the_smallest_free_suffix() {
    let taken = vec!["bay".to_string(), "bay1".to_string()];
    assert_eq!(pick_id(Some("bay".into()), "/tmp/bay", &taken).unwrap(), "bay2");
    assert_eq!(pick_id(Some("cove".into()), "/tmp/cove", &taken).unwrap(), "cove");
    assert_eq!(pick_id(Some("main".into()), "/tmp/main", &vec![]).unwrap(), "main1");
    let e = pick_id(None, "/", &taken).unwrap_err();
    assert_eq!(e.id(), "worktree/exists");
    assert_eq!(e.text(), "/ is not a directory fufu can name");
}

fn strings(v: &[&str]) -> Vec<String> {
    v.iter().map(|s| s.to_string()).collect()
}

#[test]
fn the_live_worktrees_are_main_and_every_listed_one_sorted_once() {
    assert_eq!(live_ids(strings(&["wt2", "main", "wt1", "wt2"])), strings(&["main", "wt1", "wt2"]));
    assert_eq!(live_ids(vec![]), strings(&["main"]));
}

#[test]
fn a_chain_is_an_orphan_when_its_worktree_is_gone() {
    let live = strings(&["main", "wt1"]);
    assert_eq!(orphans(strings(&["zed", "wt1", "gone", "main"]), &live), strings(&["gone", "zed"]));
    assert!(orphans(strings(&["main"]), &live).is_empty());
}
