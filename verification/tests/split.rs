// Splitting byte strings on a needle.

use bstr::split::{rsplitn_str, split_str, splitn_str};

fn v(pieces: &[&[u8]]) -> Vec<Vec<u8>> {
    pieces.iter().map(|p| p.to_vec()).collect()
}

#[test]
fn split_on_separator() {
    assert_eq!(split_str(b"a:b:c", b":"), v(&[b"a", b"b", b"c"]));
    assert_eq!(split_str(b":a:", b":"), v(&[b"", b"a", b""]));
    assert_eq!(split_str(b"abc", b":"), v(&[b"abc"]));
    assert_eq!(split_str(b"", b":"), v(&[b""]));
}

#[test]
fn split_on_empty_needle() {
    assert_eq!(split_str(b"rust", b""), v(&[b"", b"r", b"u", b"s", b"t", b""]));
    assert_eq!(split_str(b"", b""), v(&[b"", b""]));
}

#[test]
fn split_takes_leftmost_non_overlapping_matches() {
    assert_eq!(split_str(b"aaa", b"aa"), v(&[b"", b"a"]));
    assert_eq!(split_str(b"aaaa", b"aa"), v(&[b"", b"", b""]));
    assert_eq!(split_str(b"xaxbx", b"x"), v(&[b"", b"a", b"b", b""]));
}

#[test]
fn splitn_keeps_the_rest_in_the_last_piece() {
    assert_eq!(splitn_str(b"a:b:c", 2, b":"), v(&[b"a", b"b:c"]));
    assert_eq!(splitn_str(b"a:b:c", 1, b":"), v(&[b"a:b:c"]));
    assert_eq!(splitn_str(b"a:b:c", 0, b":"), v(&[]));
    assert_eq!(splitn_str(b"a:b:c", 3, b":"), v(&[b"a", b"b", b"c"]));
}

#[test]
fn splitn_adds_no_empty_tail_past_the_last_match() {
    assert_eq!(splitn_str(b"ab", 2, b":"), v(&[b"ab"]));
    assert_eq!(splitn_str(b"a:b", 3, b":"), v(&[b"a", b"b"]));
    assert_eq!(splitn_str(b"a:", 5, b":"), v(&[b"a", b""]));
}

#[test]
fn rsplitn_from_the_right() {
    assert_eq!(rsplitn_str(b"a:b:c", 2, b":"), v(&[b"c", b"a:b"]));
    assert_eq!(rsplitn_str(b"a:b:c", 9, b":"), v(&[b"c", b"b", b"a"]));
    assert_eq!(rsplitn_str(b"a:b:c", 0, b":"), v(&[]));
    assert_eq!(rsplitn_str(b"ab", 2, b":"), v(&[b"ab"]));
    assert_eq!(rsplitn_str(b":a", 4, b":"), v(&[b"a", b""]));
}

#[test]
fn rsplitn_takes_rightmost_non_overlapping_matches() {
    assert_eq!(rsplitn_str(b"aaa", 5, b"aa"), v(&[b"", b"a"]));
    assert_eq!(rsplitn_str(b"aaaaa", 5, b"aa"), v(&[b"", b"", b"a"]));
}

#[test]
fn rsplitn_on_empty_needle() {
    assert_eq!(rsplitn_str(b"rust", 10, b""), v(&[b"", b"t", b"s", b"u", b"r", b""]));
    assert_eq!(rsplitn_str(b"rust", 3, b""), v(&[b"", b"t", b"rus"]));
}
