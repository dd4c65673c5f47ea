use ff_core::error::{exit_code_for, Error};

#[test]
fn exit_code_from_namespace() {
    let e = Error::coded("usage/bad-value", "oops", vec![]);
    assert_eq!(e.exit_code(), 2);

    let e = Error::coded("held/wait", "paused", vec![]);
    assert_eq!(e.exit_code(), 3);

    let e = Error::coded("ref/contended", "held", vec![]);
    assert_eq!(e.exit_code(), 4);

    let e = Error::coded("ref/not-found", "gone", vec![]);
    assert_eq!(e.exit_code(), 1);

    let e = Error::coded("internal/something", "err", vec![]);
    assert_eq!(e.exit_code(), 1);

    let e = Error::msg("plain");
    assert_eq!(e.exit_code(), 1);
}

#[test]
fn a_source_chain_reads_as_one_line() {
    let e = Error::repo(&vec!["outer".to_string(), "middle".to_string(), "root".to_string()]);
    assert_eq!(e.text(), "outer: middle: root");
    assert_eq!(e.id(), "internal");
    assert!(e.exits().is_empty());
}

#[test]
fn the_exit_codes_have_one_meaning_each() {
    assert_eq!(exit_code_for("usage/x"), 2);
    assert_eq!(exit_code_for("held/x"), 3);
    assert_eq!(exit_code_for("ref/contended"), 4);
    assert_eq!(exit_code_for("ref/contended-not"), 1);
    assert_eq!(exit_code_for(""), 1);
}
