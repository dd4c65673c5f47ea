use ff_core::journal::{
    absorb_summary, current_branch, entry_message, entry_parts, head_transition, is_incomplete, kind_word, match_op_prefix,
    pin_parents, reconcile_plan, table_pins, OpKind, OpRecord, RefTransition, RefsTable, TipState,
};
use ff_core::model::ForeignChange;
use ff_core::oid::Oid;

const A: &str = "6e50901ae01a2c2071423876bb8fccecfe175c69";
const B: &str = "0000000000000000000000000000000000000001";

fn table(head: &str, refs: &[(&str, &str)]) -> RefsTable {
    let mut t = RefsTable::default();
    t.head = head.to_string();
    for (name, sha) in refs {
        t.insert(name, sha);
    }
    t
}

#[test]
fn the_table_keeps_names_sorted_and_once() {
    let mut t = table("ref:refs/heads/main", &[("refs/heads/z", A), ("refs/heads/a", B), ("refs/heads/z", B)]);
    assert_eq!(t.refs, vec![("refs/heads/a".to_string(), B.to_string()), ("refs/heads/z".to_string(), B.to_string())]);
    assert_eq!(t.get("refs/heads/z").as_deref(), Some(B));
    t.remove("refs/heads/a");
    assert_eq!(t.get("refs/heads/a"), None);
    assert_eq!(t.refs.len(), 1);
}

#[test]
fn a_table_reads_back_from_its_blob() {
    let t = table("ref:refs/heads/main", &[("refs/heads/main", A), ("refs/tags/v1", B)]);
    let blob = t.to_blob();
    assert_eq!(blob, format!("ref:refs/heads/main HEAD\n{A} refs/heads/main\n{B} refs/tags/v1\n"));
    let back = RefsTable::from_blob(&blob).unwrap();
    assert_eq!(back.head, t.head);
    assert_eq!(back.refs, t.refs);
}

#[test]
fn a_blob_without_head_or_with_a_bad_line_is_refused() {
    let e = RefsTable::from_blob(&format!("{A} refs/heads/main\n")).unwrap_err();
    assert_eq!(e.text(), "refs table has no HEAD line");
    let e = RefsTable::from_blob("ref:refs/heads/main HEAD\nnospace\n").unwrap_err();
    assert_eq!(e.text(), "malformed refs line: \"nospace\"");
    let t = RefsTable::from_blob("x HEAD\r\n").unwrap();
    assert_eq!(t.head, "x");
}

#[test]
fn a_later_line_wins_over_an_earlier_one() {
    let t = RefsTable::from_blob(&format!("a HEAD\n{A} refs/heads/x\nb HEAD\n{B} refs/heads/x\n")).unwrap();
    assert_eq!(t.head, "b");
    assert_eq!(t.get("refs/heads/x").as_deref(), Some(B));
}

#[test]
fn the_diff_lists_head_first_then_names_in_order() {
    let old = table("ref:refs/heads/main", &[("refs/heads/a", A), ("refs/heads/b", A), ("refs/heads/c", A)]);
    let new = table("ref:refs/heads/side", &[("refs/heads/b", A), ("refs/heads/c", B), ("refs/heads/d", B)]);
    let d = old.diff(&new);
    let names: Vec<&str> = d.iter().map(|c| c.name.as_str()).collect();
    assert_eq!(names, vec!["HEAD", "refs/heads/a", "refs/heads/c", "refs/heads/d"]);
    assert_eq!(d[1].old.as_deref(), Some(A));
    assert_eq!(d[1].new, None);
    assert_eq!(d[2].new.as_deref(), Some(B));
    assert_eq!(d[3].old, None);
    assert!(old.diff(&old).is_empty());
}

#[test]
fn head_on_a_branch_names_it() {
    let t = table("ref:refs/heads/main", &[]);
    assert_eq!(current_branch(&t).as_deref(), Some("main"));
    let d = table(A, &[]);
    assert_eq!(current_branch(&d), None);
    assert_eq!(head_transition(&t, &d), Some((t.head.clone(), A.to_string())));
    assert_eq!(head_transition(&t, &t), None);
}

#[test]
fn pins_are_every_sha_the_table_names() {
    let t = table(A, &[("refs/heads/a", B), ("refs/heads/b", "not-a-sha")]);
    let pins = table_pins(&t);
    assert_eq!(pins.len(), 2);
    assert_eq!(pins[0].to_hex(), B);
    assert_eq!(pins[1].to_hex(), A);
}

#[test]
fn an_entry_message_names_its_kind() {
    assert_eq!(kind_word(OpKind::Foreign), "foreign");
    let r = OpRecord::new(OpKind::Op, "commit", "commit on main: x", 7);
    assert_eq!(entry_message(&r), "op: commit on main: x\n");
    assert_eq!(r.time, 7);
    assert!(r.refs.is_empty());
}

#[test]
fn parents_hold_each_pin_once_after_the_previous_entry() {
    let a = Oid::from_hex(A).unwrap();
    let b = Oid::from_hex(B).unwrap();
    let p = pin_parents(Some(a), &vec![b, a, b]);
    assert_eq!(p, vec![a, b]);
    assert_eq!(pin_parents(None, &vec![b, b]), vec![b]);
}

#[test]
fn a_clean_pass_appends_nothing() {
    let t = table("ref:refs/heads/main", &[("refs/heads/main", A)]);
    let tip = TipState::Read { id: "e0".to_string(), record: OpRecord::new(OpKind::Op, "commit", "c", 1), refs: t.clone() };
    let plan = reconcile_plan(&tip, &t, 9);
    assert!(plan.record.is_none());
    assert!(plan.foreign.is_empty());
    assert!(!plan.bootstrapped);
}

#[test]
fn foreign_motion_becomes_one_entry() {
    let expected = table("ref:refs/heads/main", &[("refs/heads/main", A)]);
    let observed = table("ref:refs/heads/main", &[("refs/heads/main", B)]);
    let prev = OpRecord::new(OpKind::Note, "init", "i", 1);
    let plan = reconcile_plan(&TipState::Read { id: "e0".to_string(), record: prev, refs: expected }, &observed, 9);
    let rec = plan.record.unwrap();
    assert_eq!(rec.kind, OpKind::Foreign);
    assert_eq!(rec.verb, "reconcile");
    assert_eq!(rec.summary, "absorbed 1 foreign ref change(s)");
    assert_eq!(rec.branch.as_deref(), Some("main"));
    assert_eq!(rec.refs.len(), 1);
    assert_eq!(rec.refs[0].new.as_deref(), Some(B));
    assert!(rec.head.is_none());
    assert_eq!(rec.prev.as_deref(), Some("e0"));
}

#[test]
fn an_op_that_never_ran_is_flagged() {
    let expected = table("ref:refs/heads/main", &[("refs/heads/main", B)]);
    let observed = table("ref:refs/heads/main", &[("refs/heads/main", A)]);
    let mut op = OpRecord::new(OpKind::Op, "commit", "c", 1);
    op.refs.push(RefTransition { name: "refs/heads/main".into(), old: Some(A.into()), new: Some(B.into()) });
    let foreign = expected.diff(&observed);
    assert!(is_incomplete(&op, &foreign));
    let plan = reconcile_plan(&TipState::Read { id: "e0".to_string(), record: op, refs: expected }, &observed, 9);
    assert_eq!(plan.record.unwrap().summary, "absorbed 1 ref change(s); previous op may not have completed");
    assert_eq!(absorb_summary(12, false), "absorbed 12 foreign ref change(s)");
}

#[test]
fn a_missing_or_unreadable_journal_is_initialized() {
    let observed = table("ref:refs/heads/main", &[]);
    let plan = reconcile_plan(&TipState::Absent, &observed, 5);
    assert!(plan.bootstrapped && !plan.reinitialized);
    assert_eq!(plan.record.as_ref().unwrap().verb, "init");
    let plan = reconcile_plan(&TipState::Unreadable { id: A.into(), error: "bad".into() }, &observed, 5);
    assert!(plan.reinitialized);
    assert_eq!(plan.park.as_deref(), Some(A));
    assert_eq!(plan.warnings, vec!["journal tip unreadable (bad); chain parked at refs/fufu/trash/@journal".to_string()]);
    let _ = ForeignChange { name: String::new(), old: None, new: None, hint: None };
}

#[test]
fn an_op_prefix_names_one_entry_or_says_why_not() {
    let a = Oid::from_hex(A).unwrap();
    let b = Oid::from_hex(B).unwrap();
    let c = Oid::from_hex("6e5000000000000000000000000000000000000f").unwrap();
    assert_eq!(match_op_prefix(&vec![a, b], "6e5").unwrap(), a);
    let e = match_op_prefix(&vec![a, b], "ff").unwrap_err();
    assert_eq!(e.text(), "no journal entry matching ff");
    let e = match_op_prefix(&vec![a, c, b], "6e5").unwrap_err();
    assert_eq!(e.text(), format!("ambiguous op prefix 6e5: {A}, 6e5000000000000000000000000000000000000f"));
}

#[test]
fn an_entry_tree_yields_its_three_parts_or_names_the_missing_one() {
    let o = Oid([1; 20]);
    let r = Oid([2; 20]);
    let x = Oid([3; 20]);
    let later = Oid([4; 20]);
    let listing = vec![
        ("index".to_string(), x),
        ("op.json".to_string(), o),
        ("other".to_string(), later),
        ("refs".to_string(), r),
        ("op.json".to_string(), later),
    ];
    let (op, refs, index) = entry_parts("abc", &listing).unwrap();
    assert_eq!((op, refs, index), (later, r, x));
    let e = entry_parts("abc", &vec![("refs".to_string(), r)]).unwrap_err();
    assert_eq!(e.text(), "journal entry abc has no op.json");
    let e = entry_parts("abc", &vec![("op.json".to_string(), o), ("index".to_string(), x)]).unwrap_err();
    assert_eq!(e.text(), "journal entry abc has no refs blob");
    let e = entry_parts("abc", &vec![("op.json".to_string(), o), ("refs".to_string(), r)]).unwrap_err();
    assert_eq!(e.text(), "journal entry abc has no index tree");
}

#[test]
fn swapping_the_tables_swaps_every_change() {
    let e = table("ref:refs/heads/main", &[("refs/heads/a", A), ("refs/heads/b", B)]);
    let c = table("ref:refs/heads/b", &[("refs/heads/b", A), ("refs/heads/c", B)]);
    let forward = e.diff(&c);
    let back = c.diff(&e);
    assert_eq!(forward.len(), 4);
    assert_eq!(forward.len(), back.len());
    for (f, b) in forward.iter().zip(back.iter()) {
        assert_eq!(f.name, b.name);
        assert_eq!(f.old, b.new);
        assert_eq!(f.new, b.old);
    }
}
