use ff_core::evolog::order::{order_operations, settle_found, sort_found, ChangeOp, Found};

fn found(id: &str, time: i64, commit: &str, rewrote: &[&str]) -> Found {
    Found {
        op: ChangeOp {
            id: id.to_string(),
            short_id: String::new(),
            chain: "main".to_string(),
            verb: "edit".to_string(),
            summary: String::new(),
            time,
            commit: commit.to_string(),
            session: None,
        },
        rewrote: rewrote.iter().map(|s| s.to_string()).collect(),
    }
}

fn ids(v: &[ChangeOp]) -> Vec<String> {
    v.iter().map(|o| o.id.clone()).collect()
}

#[test]
fn operations_are_listed_newest_first_and_by_id_within_a_second() {
    let v = vec![found("b", 10, "c1", &[]), found("c", 20, "c2", &[]), found("a", 10, "c3", &[])];
    let r = sort_found(v);
    let got: Vec<String> = r.iter().map(|f| f.op.id.clone()).collect();
    assert_eq!(got, vec!["c", "a", "b"]);
}

#[test]
fn a_rewrite_settles_a_tie_against_the_ids() {
    // "b" rewrote what "a" produced in the same second: "b" came after, so
    // it is listed first although its id is the larger.
    let v = vec![found("a", 10, "c2", &[]), found("b", 10, "c3", &["c2"])];
    let r = order_operations(v, None);
    assert_eq!(ids(&r), vec!["b", "a"]);
    // A chain of three in one second: c rewrote b's, b rewrote a's. Only
    // neighbours change places, so c, never next to a, stays behind it.
    let v = vec![
        found("a", 5, "x1", &[]),
        found("b", 5, "x2", &["x1"]),
        found("c", 5, "x3", &["x2"]),
    ];
    let r = order_operations(v, None);
    assert_eq!(ids(&r), vec!["b", "a", "c"]);
}

#[test]
fn a_rewrite_across_seconds_does_not_reorder() {
    let v = vec![found("a", 30, "x1", &[]), found("b", 10, "x2", &["x1"])];
    let r = order_operations(v, None);
    assert_eq!(ids(&r), vec!["a", "b"]);
}

#[test]
fn the_list_is_cut_to_the_limit_after_settling() {
    let v = vec![
        found("a", 5, "x1", &[]),
        found("b", 5, "x2", &["x1"]),
        found("z", 1, "x9", &[]),
    ];
    let r = order_operations(v, Some(1));
    assert_eq!(ids(&r), vec!["b"]);
    let r = settle_found(vec![]);
    assert!(r.is_empty());
    let r = order_operations(vec![found("q", 1, "x", &[])], Some(5));
    assert_eq!(ids(&r), vec!["q"]);
}
