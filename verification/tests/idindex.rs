use ff_core::idindex::{
    check_header, common_prefix, header_line, hex8_string, index_body, parse_candidates, status_of, unique_len, Index, Kind, Status,
};
use ff_core::oid::Oid;

const TIP: &str = "6e50901ae01a2c2071423876bb8fccecfe175c69";

fn idx(records: &[&str], base: usize) -> Index {
    Index { records: records.iter().map(|r| r.as_bytes().to_vec()).collect(), base }
}

#[test]
fn the_kinds_name_their_directory_and_ref() {
    assert_eq!(Kind::Live.dir(), "live");
    assert_eq!(Kind::Trash.dir(), "trash");
    assert_eq!(Kind::Live.ref_name("main"), "refs/fufu/snap/main");
    assert_eq!(Kind::Trash.ref_name("main"), "refs/fufu/trash/main");
}

#[test]
fn common_prefix_counts_bytes() {
    assert_eq!(common_prefix("abcd", "abxy"), 2);
    assert_eq!(common_prefix("abc", "abc"), 3);
    assert_eq!(common_prefix("", "abc"), 0);
    assert_eq!(common_prefix("é", "è"), 1);
}

#[test]
fn a_header_is_checked_against_the_tip() {
    let tip = Oid::from_hex(TIP).unwrap();
    let header = format!("{TIP} 00000002\n");
    let len = 50 + 3 * 41;
    assert_eq!(check_header(len, &header.as_bytes().to_vec(), &tip), Some((2, 3)));
    assert_eq!(check_header(len + 1, &header.as_bytes().to_vec(), &tip), None);
    let too_big = format!("{TIP} 00000004\n");
    assert_eq!(check_header(len, &too_big.as_bytes().to_vec(), &tip), None);
    let other = format!("{} 00000002\n", "0".repeat(40));
    assert_eq!(check_header(len, &other.as_bytes().to_vec(), &tip), None);
    let signed = format!("{TIP} +0000002\n");
    assert_eq!(check_header(len, &signed.as_bytes().to_vec(), &tip), Some((2, 3)));
    let upper = format!("{TIP} 0000000A\n");
    assert_eq!(check_header(50 + 10 * 41, &upper.as_bytes().to_vec(), &tip), Some((10, 10)));
}

#[test]
fn the_file_is_a_header_and_one_line_per_id() {
    let tip = Oid::from_hex(TIP).unwrap();
    let a = "1".repeat(40);
    let b = "2".repeat(40);
    let body = index_body(&tip, &vec![a.clone(), b.clone()]).unwrap();
    assert_eq!(body, format!("{TIP} 00000002\n{a}\n{b}\n"));
    assert_eq!(body.len(), 50 + 2 * 41);
    assert_eq!(index_body(&tip, &vec!["short".to_string()]), None);
    assert_eq!(header_line(&tip, 300), format!("{TIP} 0000012c\n"));
    assert_eq!(hex8_string(0x1_2345_6789), "123456789");
}

#[test]
fn the_nearest_neighbours_give_the_longest_shared_prefix() {
    let i = idx(&["aaaa", "abcd", "abce", "bbbb"], 4);
    assert_eq!(i.lower_bound(&b"abcd".to_vec()), 1);
    assert_eq!(i.longest_common(&b"abcd".to_vec()), 3);
    assert_eq!(i.longest_common(&b"zzzz".to_vec()), 0);
    let with_tail = idx(&["aaaa", "bbbb", "zzzq"], 2);
    assert_eq!(with_tail.longest_common(&b"zzzz".to_vec()), 3);
}

#[test]
fn the_unique_length_spans_both_files() {
    let live = idx(&["abcd", "bbbb"], 2);
    let trash = idx(&["abcx"], 1);
    assert_eq!(unique_len(&live, &trash, "abcd"), 4);
    assert_eq!(unique_len(&live, &idx(&[], 0), "abcd"), 1);
    assert_eq!(unique_len(&idx(&["abcd"], 1), &idx(&["abcd"], 1), "abcd"), 1);
}

#[test]
fn matches_come_once_each_from_base_and_tail() {
    let live = idx(&["ab01", "ab02", "ac00", "ab09"], 3);
    let mut out = Vec::new();
    live.collect_matches(&b"ab".to_vec(), &mut out);
    assert_eq!(out, vec![b"ab01".to_vec(), b"ab02".to_vec(), b"ab09".to_vec()]);
    let trash = idx(&["ab02", "ab03"], 2);
    trash.collect_matches(&b"ab".to_vec(), &mut out);
    assert_eq!(out.len(), 4);
}

#[test]
fn a_merge_sorts_what_could_be_read() {
    let i = idx(&["b", "a", "", "c"], 1);
    assert!(!i.merge_due());
    let m = i.merged();
    assert_eq!(m.records, vec![b"a".to_vec(), b"b".to_vec(), b"c".to_vec()]);
    assert_eq!(m.base, 3);
}

#[test]
fn the_status_says_absent_stale_or_in_sync() {
    let tip = Oid::from_hex(TIP).unwrap();
    assert_eq!(status_of(None, Some(tip)), Status::Absent);
    let header = format!("{TIP} 00000000\n").into_bytes();
    assert_eq!(status_of(Some((50, header.clone())), None), Status::Stale);
    assert_eq!(status_of(Some((50 + 41, header)), Some(tip)), Status::InSync { ids: 1 });
}

#[test]
fn collected_records_parse_and_the_rest_drop() {
    let upper = TIP.to_uppercase();
    let seen = vec![
        TIP.as_bytes().to_vec(),
        b"abc".to_vec(),
        "g".repeat(40).into_bytes(),
        upper.as_bytes().to_vec(),
    ];
    let ids = parse_candidates(&seen);
    let tip = Oid::from_hex(TIP).unwrap();
    assert_eq!(ids, vec![tip, tip]);
    assert_eq!(Oid::from_hex_bytes(TIP.as_bytes()), Some(tip));
    assert_eq!(Oid::from_hex_bytes(b"zz"), None);
}
