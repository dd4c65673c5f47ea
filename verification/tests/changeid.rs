use ff_core::changeid::{header, of_commit, prefix_lens, ChangeId, HEADER, LETTERS};
use ff_core::oid::Oid;
use gix::bstr::BString;
use gix::objs::WriteTo;

fn lens_of(lens: &[(String, usize)], id: &str) -> usize {
    lens.iter().find(|(k, _)| k == id).map(|(_, n)| *n).expect("every id on the page has a length")
}

#[test]
fn mint_round_trips_and_differs() {
    let a = ChangeId::mint().unwrap();
    let b = ChangeId::mint().unwrap();
    assert_ne!(a, b);
    assert_eq!(ChangeId::parse(&a.letters()), Some(a));
    assert_eq!(a.letters().len(), LETTERS);
    assert_eq!(a.hex().len(), 32);
}

#[test]
fn derivation_matches_jj() {
    let sha = Oid::from_hex("6e50901ae01a2c2071423876bb8fccecfe175c69").unwrap();
    assert_eq!(ChangeId::derive(&sha).letters(), "qtwplrskwswwkymmtlynvxrlzvwvurzs");
}

#[test]
fn parse_rejects_hex_and_wrong_lengths() {
    let ok = "qtwplrskwswwkymmtlynvxrlzvwvurzs";
    assert!(ChangeId::parse(ok).is_some());
    assert!(ChangeId::parse(&ok.to_uppercase()).is_some());
    assert!(ChangeId::parse("6e50901ae01a2c2071423876bb8fccec").is_none());
    assert!(ChangeId::parse(&ok[..31]).is_none());
    assert!(ChangeId::parse(&format!("{ok}k")).is_none());
}

#[test]
fn has_prefix_is_case_insensitive_and_alphabet_only() {
    let id = ChangeId::parse("qtwplrskwswwkymmtlynvxrlzvwvurzs").unwrap();
    assert!(id.has_prefix("qtwp"));
    assert!(id.has_prefix("QTWP"));
    assert!(!id.has_prefix("qtwq"));
    assert!(!id.has_prefix("6e50"));
}

fn raw_commit(extra: &[(&str, &str)]) -> Vec<u8> {
    let sig = gix::actor::Signature {
        name: "t".into(),
        email: "t@x".into(),
        time: gix::date::Time::new(0, 0),
    };
    let commit = gix::objs::Commit {
        tree: gix::ObjectId::empty_tree(gix::hash::Kind::Sha1),
        parents: Default::default(),
        author: sig.clone(),
        committer: sig,
        encoding: None,
        message: "m\n".into(),
        extra_headers: extra
            .iter()
            .map(|(k, v)| (BString::from(*k), BString::from(*v)))
            .collect(),
    };
    let mut buf = Vec::new();
    commit.write_to(&mut buf).unwrap();
    buf
}

#[test]
fn of_commit_prefers_a_well_formed_header() {
    let sha = Oid::from_hex("6e50901ae01a2c2071423876bb8fccecfe175c69").unwrap();
    let want = "kkkkkkkkkkkkkkkkkkkkkkkkkkkkkkkk";
    let raw = raw_commit(&[(HEADER, want)]);
    assert_eq!(of_commit(&raw, &sha).letters(), want);
    let raw = raw_commit(&[(HEADER, "not an id")]);
    assert_eq!(
        of_commit(&raw, &sha).letters(),
        "qtwplrskwswwkymmtlynvxrlzvwvurzs",
        "a malformed header derives"
    );
    let raw = raw_commit(&[]);
    assert_eq!(of_commit(&raw, &sha).letters(), "qtwplrskwswwkymmtlynvxrlzvwvurzs");
}

#[test]
fn header_pair() {
    let id = ChangeId::parse("qtwplrskwswwkymmtlynvxrlzvwvurzs").unwrap();
    let (name, value) = header(&id);
    assert_eq!(name, "change-id");
    assert_eq!(value, "qtwplrskwswwkymmtlynvxrlzvwvurzs");
}

#[test]
fn prefix_lens_on_a_page() {
    let a = "qtwplrskwswwkymmtlynvxrlzvwvurzs";
    let b = "qtwzlrskwswwkymmtlynvxrlzvwvurzs";
    let c = "kkkklrskwswwkymmtlynvxrlzvwvurzs";
    let lens = prefix_lens(&vec![a, b, c]);
    assert_eq!(lens_of(&lens, a), 4);
    assert_eq!(lens_of(&lens, b), 4);
    assert_eq!(lens_of(&lens, c), 1);
    let alone = prefix_lens(&vec![a]);
    assert_eq!(lens_of(&alone, a), 1);
    let twins = prefix_lens(&vec![a, a]);
    assert_eq!(lens_of(&twins, a), 1, "the same id twice is one id");
    assert_eq!(twins.len(), 1);
}

#[test]
fn hex_and_letters_spell_the_same_bytes() {
    let id = ChangeId::parse("qtwplrskwswwkymmtlynvxrlzvwvurzs").unwrap();
    assert_eq!(id.hex(), "963ae87f3733f1dd6e1c428e04345807");
    assert_eq!(ChangeId::parse(&id.letters()), Some(id));
}

#[test]
fn a_pages_lengths_ignore_order_and_repetition() {
    let a = "zzkkmm";
    let b = "zzkpqr";
    let c = "lmnopq";
    let one = prefix_lens(&vec![a, b, c]);
    let two = prefix_lens(&vec![c, a, c, b, a]);
    let mut one_sorted = one.clone();
    one_sorted.sort();
    let mut two_sorted = two.clone();
    two_sorted.sort();
    assert_eq!(one_sorted, two_sorted);
}
