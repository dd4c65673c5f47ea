use ff_core::message::split;

#[test]
fn a_one_line_message_has_no_body() {
    assert_eq!(split(b"one"), ("one".into(), String::new()));
    assert_eq!(split(b"one\n"), ("one".into(), String::new()));
}

#[test]
fn the_body_keeps_its_paragraphs() {
    let (subject, body) = split(b"subject\n\nfirst para\nsecond line\n\nsecond para\n");
    assert_eq!(subject, "subject");
    assert_eq!(body, "first para\nsecond line\n\nsecond para");
}

#[test]
fn a_trailing_newline_is_trimmed() {
    assert_eq!(split(b"s\n\nb\n\n"), ("s".into(), "b".into()));
}

#[test]
fn a_crlf_separator_splits_too() {
    assert_eq!(split(b"s\r\n\r\nb\r\n"), ("s".into(), "b".into()));
}

#[test]
fn a_two_line_title_folds_into_one_subject() {
    let (subject, body) = split(b"first\nsecond\n\nbody");
    assert_eq!(subject, "first second");
    assert_eq!(body, "body");
}

#[test]
fn mixed_line_endings_split_and_bad_bytes_are_replaced() {
    let (subject, body) = split(b"s\n\r\nb\xff");
    assert_eq!(subject, "s");
    assert_eq!(body, "b\u{FFFD}");
    assert_eq!(split(b"s\n\n").1, "");
}
