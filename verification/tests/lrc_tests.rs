//! Tests for the lyric-subtitle text parser.

use klok::parse_lrc;

#[test]
fn parses_simple_lines_in_order() {
    let lines = parse_lrc("[00:01.50]hello\n[00:02]world\n");
    assert_eq!(lines.len(), 2);
    assert_eq!(lines[0].time_ms, 1500);
    assert_eq!(lines[0].text, "hello");
    assert_eq!(lines[1].time_ms, 2000);
    assert_eq!(lines[1].text, "world");
}

#[test]
fn sorts_by_timestamp_ascending() {
    let lines = parse_lrc("[00:10]later\n[00:05]earlier\n");
    assert_eq!(lines[0].text, "earlier");
    assert_eq!(lines[1].text, "later");
    assert!(lines[0].time_ms <= lines[1].time_ms);
}

#[test]
fn multiple_stamps_share_one_text() {
    let lines = parse_lrc("[00:01][00:03]la\n");
    assert_eq!(lines.len(), 2);
    assert_eq!(lines[0].time_ms, 1000);
    assert_eq!(lines[1].time_ms, 3000);
    assert_eq!(lines[0].text, "la");
    assert_eq!(lines[1].text, "la");
}

#[test]
fn minutes_scale_by_sixty_seconds() {
    let lines = parse_lrc("[02:30.25]chorus\n");
    assert_eq!(lines.len(), 1);
    assert_eq!(lines[0].time_ms, 2 * 60000 + 30250);
}

#[test]
fn empty_input_and_blank_lines_yield_nothing() {
    assert_eq!(parse_lrc("").len(), 0);
    assert_eq!(parse_lrc("\n   \n\t\n").len(), 0);
}

#[test]
fn line_without_stamp_yields_nothing() {
    assert_eq!(parse_lrc("just text\n").len(), 0);
}

#[test]
fn stamp_without_colon_contributes_no_entry() {
    let lines = parse_lrc("[123]text\n");
    assert_eq!(lines.len(), 0);
}

#[test]
fn unparsable_numbers_count_as_zero() {
    let lines = parse_lrc("[aa:bb]text\n");
    assert_eq!(lines.len(), 1);
    assert_eq!(lines[0].time_ms, 0);
    assert_eq!(lines[0].text, "text");
}

#[test]
fn unclosed_bracket_becomes_text() {
    let lines = parse_lrc("[00:01]one [unclosed\n");
    assert_eq!(lines.len(), 1);
    assert_eq!(lines[0].text, "one [unclosed");
}

#[test]
fn text_is_trimmed() {
    let lines = parse_lrc("  [00:01]  padded text  \r\n");
    assert_eq!(lines.len(), 1);
    assert_eq!(lines[0].text, "padded text");
}

#[test]
fn multibyte_text_survives() {
    let lines = parse_lrc("[00:01]我的歌词\n");
    assert_eq!(lines.len(), 1);
    assert_eq!(lines[0].text, "我的歌词");
}

#[test]
fn fraction_digits_beyond_three_are_ignored() {
    let lines = parse_lrc("[00:01.23456]x\n");
    assert_eq!(lines.len(), 1);
    assert_eq!(lines[0].time_ms, 1234);
}
