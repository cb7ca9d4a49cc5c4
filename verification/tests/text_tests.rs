use srt2lrc::text::{parse_u32, split_lines, split_vec, u32_to_dec};

#[test]
fn parse_accepts_leading_zeros() {
    assert_eq!(parse_u32(&b"0123".to_vec()), Some(123));
}

#[test]
fn parse_accepts_zero() {
    assert_eq!(parse_u32(&b"0".to_vec()), Some(0));
}

#[test]
fn parse_rejects_empty_input() {
    assert_eq!(parse_u32(&b"".to_vec()), None);
}

#[test]
fn parse_rejects_non_digits() {
    assert_eq!(parse_u32(&b"12a".to_vec()), None);
    assert_eq!(parse_u32(&b"-1".to_vec()), None);
    assert_eq!(parse_u32(&b" 1".to_vec()), None);
}

#[test]
fn parse_accepts_the_largest_value() {
    assert_eq!(parse_u32(&b"4294967295".to_vec()), Some(u32::MAX));
}

#[test]
fn parse_rejects_values_past_the_largest() {
    assert_eq!(parse_u32(&b"4294967296".to_vec()), None);
    assert_eq!(parse_u32(&b"99999999999999999999".to_vec()), None);
}

#[test]
fn decimal_printing_matches_parsing() {
    assert_eq!(u32_to_dec(0), b"0".to_vec());
    assert_eq!(u32_to_dec(7), b"7".to_vec());
    assert_eq!(u32_to_dec(62), b"62".to_vec());
    assert_eq!(u32_to_dec(4294967295), b"4294967295".to_vec());
    assert_eq!(parse_u32(&u32_to_dec(123456789)), Some(123456789));
}

#[test]
fn split_keeps_empty_segments() {
    let parts = split_vec(&b"a:b::c".to_vec(), b':');
    assert_eq!(
        parts,
        vec![b"a".to_vec(), b"b".to_vec(), b"".to_vec(), b"c".to_vec()]
    );
}

#[test]
fn split_of_empty_input_is_one_empty_segment() {
    assert_eq!(split_vec(&b"".to_vec(), b':'), vec![b"".to_vec()]);
}

#[test]
fn lines_drop_the_final_line_feed() {
    assert_eq!(
        split_lines(&b"a\nb\n".to_vec()),
        vec![b"a".to_vec(), b"b".to_vec()]
    );
}

#[test]
fn lines_without_final_line_feed() {
    assert_eq!(
        split_lines(&b"a\nb".to_vec()),
        vec![b"a".to_vec(), b"b".to_vec()]
    );
}

#[test]
fn lines_of_empty_input_are_none() {
    assert_eq!(split_lines(&b"".to_vec()), Vec::<Vec<u8>>::new());
}

#[test]
fn a_lone_line_feed_is_one_empty_line() {
    assert_eq!(split_lines(&b"\n".to_vec()), vec![b"".to_vec()]);
}

#[test]
fn carriage_returns_are_stripped_from_line_ends() {
    assert_eq!(
        split_lines(&b"a\r\nb\r\n".to_vec()),
        vec![b"a".to_vec(), b"b".to_vec()]
    );
}

#[test]
fn inner_carriage_returns_are_kept() {
    assert_eq!(split_lines(&b"a\rb\n".to_vec()), vec![b"a\rb".to_vec()]);
}
