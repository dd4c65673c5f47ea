use ff_core::map::{
    assemble, contract, lay_out, map_ref, map_sources, pick_branches, rank_tips, row_order, visibility, CommitFace, MapNode,
    Walk, WalkStep, Walked,
};
use ff_core::oid::Oid;

fn oid(n: u8) -> Oid {
    let mut b = [0u8; 20];
    b[19] = n;
    Oid(b)
}

fn names(v: &[String]) -> Vec<&str> {
    v.iter().map(|s| s.as_str()).collect()
}

#[test]
fn tips_rank_newest_first_and_names_break_ties() {
    let ranked = rank_tips(vec![
        ("b".to_string(), oid(1), 10),
        ("a".to_string(), oid(2), 10),
        ("c".to_string(), oid(3), 20),
    ]);
    let order: Vec<&str> = ranked.iter().map(|t| t.0.as_str()).collect();
    assert_eq!(order, vec!["c", "a", "b"]);
}

#[test]
fn the_branch_underfoot_and_trunk_are_forced_in() {
    let ranked = rank_tips(vec![
        ("new".to_string(), oid(1), 30),
        ("mid".to_string(), oid(2), 20),
        ("main".to_string(), oid(3), 10),
        ("here".to_string(), oid(4), 5),
    ]);
    let picked = pick_branches(&ranked, "here", Some("main"), Some(1), false);
    assert_eq!(names(&picked), vec!["new", "here", "main"]);
    let picked = pick_branches(&ranked, "gone", Some("main"), None, false);
    assert_eq!(names(&picked), vec!["new", "mid", "main", "here"]);
}

#[test]
fn past_the_mask_the_forced_names_stay() {
    let tips: Vec<(String, Oid, i64)> = (0..70u8).map(|i| (format!("b{i:02}"), oid(i), 100 - i as i64)).collect();
    let ranked = rank_tips(tips);
    let picked = pick_branches(&ranked, "b69", None, None, true);
    assert_eq!(picked.len(), 63);
    assert_eq!(picked.last().map(|s| s.as_str()), Some("b69"));
    assert_eq!(picked[0], "b00");
}

#[test]
fn sources_are_distinct_tips_then_a_detached_head() {
    let tips = vec![("a".to_string(), oid(1), 1), ("b".to_string(), oid(1), 1), ("c".to_string(), oid(2), 1)];
    let picked = vec!["a".to_string(), "b".to_string(), "c".to_string()];
    assert_eq!(map_sources(&tips, &picked, Some(oid(9))), vec![oid(1), oid(2), oid(9)]);
    assert_eq!(map_sources(&tips, &picked, Some(oid(2))), vec![oid(1), oid(2)]);
}

/// A small history: 5 <- 4 <- 3 (tip a), 5 <- 2 <- 1 (tip b).
fn parents_of(id: u8) -> (i64, Vec<Oid>) {
    match id {
        3 => (30, vec![oid(4)]),
        4 => (20, vec![oid(5)]),
        1 => (25, vec![oid(2)]),
        2 => (15, vec![oid(5)]),
        5 => (10, vec![oid(6)]),
        6 => (5, vec![]),
        _ => (0, vec![]),
    }
}

fn run_walk(sources: Vec<(Oid, i64)>, cap: usize) -> Walk {
    let mut w = Walk::new(&sources, cap);
    loop {
        match w.step() {
            WalkStep::Read(id) => {
                let (t, p) = parents_of(id.0[19]);
                w.read(id, t, p);
            }
            WalkStep::Time(id) => {
                let (t, _) = parents_of(id.0[19]);
                w.timed(id, t);
            }
            WalkStep::Done => break,
        }
    }
    w
}

#[test]
fn the_walk_stops_where_the_sources_converge() {
    let w = run_walk(vec![(oid(3), 30), (oid(1), 25)], 100);
    let order: Vec<u8> = w.walked.iter().map(|x| x.id.0[19]).collect();
    assert_eq!(order, vec![3, 1, 4, 2, 5]);
    assert!(!w.truncated);
    let w = run_walk(vec![(oid(3), 30), (oid(1), 25)], 2);
    assert_eq!(w.walked.len(), 2);
    assert!(w.truncated);
}

#[test]
fn structure_and_lone_commits_are_shown_and_runs_elided() {
    let w = run_walk(vec![(oid(3), 30), (oid(1), 25)], 100);
    let sources = vec![oid(3), oid(1)];
    let vis = visibility(&w.walked, &sources);
    // 3 and 1 are sources; 5 is the fork; 4 and 2 are lone commits between.
    assert_eq!(vis, vec![true, true, true, true, true]);
    // Without the second source, 4 and 5 become a run below 3.
    let walked = vec![
        Walked { id: oid(3), time: 30, parents: vec![oid(4)] },
        Walked { id: oid(4), time: 20, parents: vec![oid(5)] },
        Walked { id: oid(5), time: 10, parents: vec![oid(6)] },
        Walked { id: oid(6), time: 5, parents: vec![] },
    ];
    let vis = visibility(&walked, &vec![oid(3)]);
    assert_eq!(vis, vec![true, false, false, true]);
    let faces = vec![
        CommitFace { short_id: "3".into(), subject: "three".into(), refs: vec![map_ref("z", None, None), map_ref("ff/a", Some(2), None)] },
        CommitFace { short_id: "6".into(), subject: "root".into(), refs: vec![] },
    ];
    let built = contract(&walked, &vis, faces);
    assert_eq!(built.len(), 3);
    match &built[0].node {
        MapNode::Commit { refs, .. } => {
            assert_eq!(refs[0].name, "ff/a");
            assert!(refs[0].anonymous);
        }
        other => panic!("{other:?}"),
    }
    assert!(matches!(built[2].node, MapNode::Elided { count: Some(2) }));
    assert_eq!(built[0].parents, vec![2]);
    assert_eq!(built[2].parents, vec![1]);
    let (order, placed) = row_order(&built);
    assert_eq!(order, vec![0, 2, 1]);
    assert_eq!(placed, 3);
    let open = MapNode::Open {
        branch: "main".into(),
        id: None,
        subject: None,
        pending: None,
        time: None,
        clean: true,
        born: true,
    };
    let map = assemble(&walked, &vis, built, order, placed, open, Some(oid(3)), false);
    assert_eq!(map.rows.len(), 4);
    assert_eq!(map.rows[0].parents, vec![1]);
    assert_eq!(map.rows[1].parents, vec![2]);
    assert_eq!(map.rows[2].parents, vec![3]);
}

#[test]
fn a_parent_the_walk_did_not_follow_is_one_frontier_marker() {
    let walked = vec![Walked { id: oid(3), time: 30, parents: vec![oid(4), oid(7)] }];
    let vis = visibility(&walked, &vec![oid(3)]);
    let faces = vec![CommitFace { short_id: "3".into(), subject: "m".into(), refs: vec![] }];
    let built = contract(&walked, &vis, faces);
    assert_eq!(built.len(), 2);
    assert!(matches!(built[1].node, MapNode::Elided { count: None }));
    assert_eq!(built[1].sort_time, 29);
}

#[test]
fn a_walk_starts_from_its_sources_each_with_one_bit() {
    let w = Walk::new(&vec![(oid(1), 30), (oid(2), 20), (oid(3), 10)], 7);
    assert_eq!(w.full, 0b111);
    assert_eq!(w.cap, 7);
    assert_eq!(w.frontier, vec![(30, oid(1)), (20, oid(2)), (10, oid(3))]);
    assert_eq!(w.queued, vec![oid(1), oid(2), oid(3)]);
    assert_eq!(w.reach, vec![(oid(1), 1), (oid(2), 2), (oid(3), 4)]);
    assert!(w.walked.is_empty() && w.waiting.is_empty() && w.reading.is_none());
    assert!(!w.finished && !w.truncated);
}

#[test]
fn a_timed_parent_joins_the_frontier() {
    // Two sources: the newer is read first, and the walk has not converged.
    let mut w = Walk::new(&vec![(oid(1), 30), (oid(9), 5)], 10);
    assert!(matches!(w.step(), WalkStep::Read(id) if id == oid(1)));
    w.read(oid(1), 30, vec![oid(2), oid(3)]);
    assert_eq!(w.waiting, vec![oid(2), oid(3)]);
    assert_eq!(w.reach, vec![(oid(1), 1), (oid(9), 2), (oid(2), 1), (oid(3), 1)]);
    w.timed(oid(2), 25);
    assert_eq!(w.frontier, vec![(5, oid(9)), (25, oid(2))]);
    assert_eq!(w.waiting, vec![oid(3)]);
}

fn elided(parents: Vec<usize>, sort_time: i64) -> ff_core::map::Built {
    ff_core::map::Built { node: MapNode::Elided { count: None }, parents, sort_time }
}

#[test]
fn ready_nodes_come_out_newest_first_then_by_index() {
    // 0 and 1 are ready at once; 1 is newer. 2 is under both.
    let built = vec![elided(vec![2], 10), elided(vec![2], 20), elided(vec![], 5), elided(vec![], 20)];
    let (order, placed) = row_order(&built);
    assert_eq!(placed, 4);
    assert_eq!(order, vec![1, 3, 0, 2]);
}

#[test]
fn the_rows_sit_under_the_open_row_and_above_their_parents() {
    let built = vec![elided(vec![1], 9), elided(vec![], 3)];
    let open = MapNode::Open {
        branch: "main".into(),
        id: None,
        subject: None,
        pending: None,
        time: None,
        clean: true,
        born: true,
    };
    let map = lay_out(&vec![], &vec![], built, open, None, true);
    assert!(map.truncated);
    assert_eq!(map.rows.len(), 3);
    assert!(matches!(map.rows[0].node, MapNode::Open { .. }));
    assert_eq!(map.rows[1].parents, vec![2]);
    assert!(map.rows[2].parents.is_empty());
}
