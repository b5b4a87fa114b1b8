use mostr::text::{
    contains, find_part, join, pad, parse_signed, parse_unsigned, replace, same_ignoring_case,
    shorter_than, split_lines, split_once, split_words, starts_with, text_at_most, to_decimal,
    to_lower, trim, trim_leading, truncate,
};

fn texts(values: &[&str]) -> Vec<String> {
    values.iter().map(|v| v.to_string()).collect()
}

#[test]
fn numbers_are_read_like_std_reads_them() {
    for text in ["0", "12", "+7", "-3", "", "+", "-", "1x", "65535", "65536", "0012", "\u{0661}"] {
        assert_eq!(
            parse_unsigned(text, 65535),
            text.parse::<u16>().ok().map(|n| n as u64),
            "{}",
            text
        );
        assert_eq!(parse_signed(text), text.parse::<i64>().ok(), "{}", text);
    }
    assert_eq!(parse_signed("9223372036854775807"), Some(i64::MAX));
    assert_eq!(parse_signed("-9223372036854775808"), Some(i64::MIN));
    assert_eq!(parse_signed("9223372036854775808"), None);
    assert_eq!(parse_unsigned("18446744073709551615", u64::MAX), Some(u64::MAX));
    assert_eq!(parse_unsigned("18446744073709551616", u64::MAX), None);
    assert_eq!(to_decimal(0), "0");
    assert_eq!(to_decimal(u64::MAX), "18446744073709551615");
}

#[test]
fn texts_are_split_like_std_splits_them() {
    for text in ["", " a  b\tc ", "a\u{00a0}b\u{2003}c", "\u{0085}x", "one"] {
        assert_eq!(
            split_words(text, false),
            text.split_ascii_whitespace().map(|s| s.to_string()).collect::<Vec<String>>()
        );
        assert_eq!(
            split_words(text, true),
            text.split_whitespace().map(|s| s.to_string()).collect::<Vec<String>>()
        );
        assert_eq!(trim(text), text.trim());
    }
    assert_eq!(split_lines("a\n\nb"), texts(&["a", "", "b"]));
    assert_eq!(split_lines(""), texts(&[""]));
    assert_eq!(split_once("a: b: c", ": "), Some(("a".to_string(), "b: c".to_string())));
    assert_eq!(split_once("a", ": "), None);
    assert_eq!(join(&texts(&["a", "b"]), ", "), "a, b");
}

#[test]
fn parts_are_found_and_replaced() {
    assert!(contains("task tracker", "trac"));
    assert!(contains("x", ""));
    assert!(!contains("x", "xy"));
    assert_eq!(find_part("abab", "ba"), Some(1));
    assert!(starts_with("wss://x", "wss://"));
    assert_eq!(replace("HHhMMm HH", "HH", "2"), "2hMMm 2");
    assert_eq!(trim_leading("..a.", '.'), "a.");
}

#[test]
fn case_and_size() {
    assert_eq!(to_lower("AbC\u{00c4}"), "abc\u{00c4}");
    assert!(same_ignoring_case("AbC", "aBc"));
    assert!(!same_ignoring_case("\u{00c4}", "\u{00e4}"));
    assert!(shorter_than("ab", 3));
    assert!(!shorter_than("\u{00e4}b", 3));
    assert_eq!(truncate("abcdef", 3), "abc");
    assert_eq!(truncate("ab", 3), "ab");
    assert_eq!(pad("7", '0', 2), "07");
    assert!(text_at_most("a", "b") && text_at_most("a", "ab") && !text_at_most("b", "ab"));
}
