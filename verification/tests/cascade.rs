use ff_core::cascade::Stack;

fn stack(links: &[(&str, Option<&str>)]) -> Stack {
    let branches: Vec<(String, Option<String>)> =
        links.iter().map(|(n, b)| (n.to_string(), b.map(|s| s.to_string()))).collect();
    Stack::from_bases(&branches)
}

#[test]
fn children_are_the_branches_sitting_directly_on_one() {
    let s = stack(&[
        ("b", Some("refs/heads/main")),
        ("a", Some("refs/heads/main")),
        ("c", Some("refs/heads/a")),
        ("r", Some("refs/remotes/origin/main")),
        ("self", Some("refs/heads/self")),
        ("loose", None),
    ]);
    assert_eq!(s.children("main"), vec!["a".to_string(), "b".to_string()]);
    assert_eq!(s.children("a"), vec!["c".to_string()]);
    assert!(s.children("self").is_empty());
    assert!(s.children("origin/main").is_empty());
}

#[test]
fn above_is_the_whole_tree_sorted_and_once() {
    let s = stack(&[
        ("b", Some("refs/heads/main")),
        ("a", Some("refs/heads/main")),
        ("d", Some("refs/heads/c")),
        ("c", Some("refs/heads/a")),
    ]);
    assert_eq!(s.above("main"), vec!["a", "b", "c", "d"]);
    assert_eq!(s.above("a"), vec!["c", "d"]);
    assert!(s.above("d").is_empty());
}

#[test]
fn a_loop_ends_the_walk_not_the_process() {
    let s = stack(&[("x", Some("refs/heads/y")), ("y", Some("refs/heads/x"))]);
    assert_eq!(s.above("x"), vec!["y"]);
    assert_eq!(s.above("y"), vec!["x"]);
}

#[test]
fn every_child_is_above_and_none_is_the_branch_itself() {
    let s = stack(&[
        ("a", Some("refs/heads/main")),
        ("main", Some("refs/heads/main")),
        ("c", Some("refs/heads/a")),
        ("b", Some("refs/heads/main")),
    ]);
    let children = s.children("main");
    assert_eq!(children, vec!["a".to_string(), "b".to_string()]);
    let above = s.above("main");
    assert!(children.iter().all(|c| above.contains(c)));
    assert!(!children.contains(&"main".to_string()));
    assert!(s.children("b").is_empty());
}
