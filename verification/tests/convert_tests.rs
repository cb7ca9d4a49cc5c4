use srt2lrc::convert::{convert_document, format_cue, parse_timing_line, srt_to_lrc, ConvertError,
    Timestamp};

fn lines(text: &[u8]) -> Vec<Vec<u8>> {
    srt_to_lrc(&text.to_vec()).expect("conversion should succeed")
}

#[test]
fn single_cue_produces_its_lrc_line() {
    let out = lines(b"1\n00:01:23,456 --> 00:01:25,000\nhello\n\n");
    assert_eq!(out, vec![b"[1:23.00] hello".to_vec()]);
}

#[test]
fn hours_fold_into_minutes() {
    let out = lines(b"1\n01:02:03,000 --> 01:02:04,000\nworld\n\n");
    assert_eq!(out, vec![b"[62:03.00] world".to_vec()]);
}

#[test]
fn two_blocks_produce_two_lines() {
    let text = b"1\n00:00:01,000 --> 00:00:02,000\nfirst\n\n2\n00:00:03,500 --> 00:00:04,000\nsecond\n\n";
    let out = lines(text);
    assert_eq!(out.len(), 2);
    assert_eq!(out[0], b"[0:01.00] first".to_vec());
    assert_eq!(out[1], b"[0:03.00] second".to_vec());
}

#[test]
fn ragged_input_keeps_complete_cues() {
    // One full block and a partial next block: six lines, where the
    // sixth is a timing line that no caption follows.
    let text = b"1\n00:00:01,000 --> 00:00:02,000\nonly\n\n2\n00:00:03,000 --> 00:00:04,000";
    let out = lines(text);
    assert_eq!(out, vec![b"[0:01.00] only".to_vec()]);
}

#[test]
fn ragged_input_without_trailing_blank() {
    let text = b"1\n00:01:23,456 --> 00:01:25,000\nhello";
    let out = lines(text);
    assert_eq!(out, vec![b"[1:23.00] hello".to_vec()]);
}

#[test]
fn empty_input_produces_no_lines() {
    assert_eq!(lines(b""), Vec::<Vec<u8>>::new());
}

#[test]
fn missing_arrow_aborts_whole_run() {
    // The first cue is fine; the second block's timing line has no
    // arrow, and the whole conversion is rejected.
    let text = b"1\n00:00:01,000 --> 00:00:02,000\nfine\n\n2\n00:00:03,000\nlost\n\n";
    let r = srt_to_lrc(&text.to_vec());
    assert_eq!(r, Err(ConvertError::MissingArrow));
}

#[test]
fn missing_fields_aborts() {
    let text = b"1\n00:01 --> 00:02\nshort\n\n";
    assert_eq!(srt_to_lrc(&text.to_vec()), Err(ConvertError::MissingFields));
}

#[test]
fn bad_number_aborts() {
    let text = b"1\nab:00:01,000 --> 00:00:02,000\nbad\n\n";
    assert_eq!(srt_to_lrc(&text.to_vec()), Err(ConvertError::BadNumber));
}

#[test]
fn overflow_aborts() {
    let text = b"1\n9999999999:00:01,000 --> 00:00:02,000\nhuge\n\n";
    assert_eq!(srt_to_lrc(&text.to_vec()), Err(ConvertError::Overflow));
}

#[test]
fn timing_line_parses_minutes_and_seconds() {
    let ts = parse_timing_line(&b"00:01:23,456 --> 00:01:25,000".to_vec()).unwrap();
    assert_eq!(ts.minutes, 1);
    assert_eq!(ts.seconds, 23);
}

#[test]
fn timing_line_with_hours() {
    let ts = parse_timing_line(&b"01:02:03,000 --> 01:02:04,000".to_vec()).unwrap();
    assert_eq!(ts.minutes, 62);
    assert_eq!(ts.seconds, 3);
}

#[test]
fn timing_line_without_comma_still_parses() {
    let ts = parse_timing_line(&b"00:00:07-->00:00:08".to_vec()).unwrap();
    assert_eq!(ts.minutes, 0);
    assert_eq!(ts.seconds, 7);
}

#[test]
fn timing_line_with_space_and_no_comma_is_rejected() {
    // Without a comma the seconds field keeps the space before the
    // arrow, and a field with a space is no number.
    let r = parse_timing_line(&b"00:00:07 --> 00:00:08".to_vec());
    assert_eq!(r, Err(ConvertError::BadNumber));
}

#[test]
fn timing_line_empty_seconds_is_rejected() {
    let r = parse_timing_line(&b"00:00:,500 --> 00:00:01,000".to_vec());
    assert_eq!(r, Err(ConvertError::BadNumber));
}

#[test]
fn cue_formatting_pads_seconds_to_two_digits() {
    let line = format_cue(&Timestamp { minutes: 62, seconds: 3 }, &b"x".to_vec());
    assert_eq!(line, b"[62:03.00] x".to_vec());
}

#[test]
fn cue_formatting_keeps_large_seconds() {
    let line = format_cue(&Timestamp { minutes: 0, seconds: 123 }, &b"y".to_vec());
    assert_eq!(line, b"[0:123.00] y".to_vec());
}

#[test]
fn cue_formatting_hundredths_are_literal_zeros() {
    // The parsed sub-second precision is discarded: the hundredths in
    // the output are always the literal "00".
    let out = lines(b"1\n00:00:09,999 --> 00:00:10,000\nnearly\n\n");
    assert_eq!(out, vec![b"[0:09.00] nearly".to_vec()]);
}

#[test]
fn document_bytes_end_each_line_with_a_line_feed() {
    let text = b"1\n00:00:01,000 --> 00:00:02,000\nfirst\n\n2\n00:00:03,000 --> 00:00:04,000\nsecond\n\n";
    let bytes = convert_document(&text.to_vec()).unwrap();
    assert_eq!(bytes, b"[0:01.00] first\n[0:03.00] second\n".to_vec());
}

#[test]
fn document_error_passes_through() {
    let text = b"1\nbroken\nx\n\n";
    assert_eq!(convert_document(&text.to_vec()), Err(ConvertError::MissingArrow));
}

#[test]
fn blank_caption_is_kept_verbatim() {
    let text = b"1\n00:00:01,000 --> 00:00:02,000\n\n\n";
    let out = lines(text);
    assert_eq!(out, vec![b"[0:01.00] ".to_vec()]);
}
