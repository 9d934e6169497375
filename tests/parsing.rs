use aoc::parse::{line_ranges, parse_u32, parse_u32_list, parse_u64, parse_u64_list, piece_ranges, word_ranges};

fn chars_of(s: &str) -> Vec<char> {
    s.chars().collect()
}

fn pieces_of(s: &str, ranges: Vec<(usize, usize)>) -> Vec<String> {
    let chars = chars_of(s);
    ranges
        .into_iter()
        .map(|(a, b)| chars[a..b].iter().collect())
        .collect()
}

#[test]
fn parse_u32_accepts_decimal() {
    assert_eq!(parse_u32("0"), Some(0));
    assert_eq!(parse_u32("42"), Some(42));
    assert_eq!(parse_u32("+7"), Some(7));
    assert_eq!(parse_u32("007"), Some(7));
    assert_eq!(parse_u32("4294967295"), Some(u32::MAX));
}

#[test]
fn parse_u32_rejects_other_text() {
    assert_eq!(parse_u32(""), None);
    assert_eq!(parse_u32("+"), None);
    assert_eq!(parse_u32("-1"), None);
    assert_eq!(parse_u32("12a"), None);
    assert_eq!(parse_u32(" 1"), None);
    assert_eq!(parse_u32("4294967296"), None);
}

#[test]
fn parse_u64_range() {
    assert_eq!(parse_u64("4294967296"), Some(4294967296));
    assert_eq!(parse_u64("18446744073709551615"), Some(u64::MAX));
    assert_eq!(parse_u64("18446744073709551616"), None);
    assert_eq!(parse_u64("99999999999999999999999"), None);
}

#[test]
fn lists_skip_words_that_are_not_numbers() {
    assert_eq!(parse_u32_list("  1 2\tx 33\n4294967296 5 "), vec![1, 2, 33, 5]);
    assert_eq!(parse_u64_list("7 4294967296 abc"), vec![7, 4294967296]);
    assert_eq!(parse_u32_list(""), Vec::<u32>::new());
    assert_eq!(parse_u32_list("1\u{a0}2"), vec![1, 2]);
}

#[test]
fn words_split_at_white_space() {
    let s = " ab  c\nd ";
    assert_eq!(pieces_of(s, word_ranges(&chars_of(s))), vec!["ab", "c", "d"]);
}

#[test]
fn lines_follow_line_feeds() {
    let s = "a\r\nb\n\nc";
    assert_eq!(pieces_of(s, line_ranges(&chars_of(s))), vec!["a", "b", "", "c"]);
    let s = "x\n";
    assert_eq!(pieces_of(s, line_ranges(&chars_of(s))), vec!["x"]);
    let s = "x\r";
    assert_eq!(pieces_of(s, line_ranges(&chars_of(s))), vec!["x\r"]);
    assert!(line_ranges(&chars_of("")).is_empty());
}

#[test]
fn pieces_keep_empty_ends() {
    let s = ",a,,b";
    assert_eq!(pieces_of(s, piece_ranges(&chars_of(s), ',')), vec!["", "a", "", "b"]);
    assert_eq!(piece_ranges(&chars_of(""), ',').len(), 1);
}
