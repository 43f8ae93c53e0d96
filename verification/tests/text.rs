use squishi::order::order_by;
use squishi::text::{
    bytes_in, char_count, decimal, find_text, holds_text, is_numeric_like, is_whitespace, join_range,
    join_texts, lines, matches_at, parse_i64, parse_u64, parse_usize, same_text, slice_text, split_text,
    text_before, text_contains, text_first_is, text_has_char, text_last_is, text_starts_with, to_chars,
    trim_start_text, trim_text, word_count, word_spans, words,
};

const SAMPLES: [&str; 12] = [
    "",
    "\n",
    "one",
    "one\n",
    "one\r\ntwo",
    "one\r",
    "\r\n\r\n",
    "a\n\nb\n",
    "  padded\t and \u{a0}spaced \u{3000}",
    "caf\u{e9} \u{1f600}\u{2028}x",
    "\u{85}next\u{85}",
    "tab\tand\u{b}vertical",
];

#[test]
fn white_space_is_what_unicode_says() {
    for c in '\0'..=char::MAX {
        assert_eq!(is_whitespace(c), c.is_whitespace(), "{:x}", c as u32);
    }
}

#[test]
fn lines_are_split_like_everywhere() {
    for s in SAMPLES {
        assert_eq!(lines(s), s.lines().collect::<Vec<_>>(), "{s:?}");
    }
}

#[test]
fn words_are_split_like_everywhere() {
    for s in SAMPLES {
        let expected: Vec<&str> = s.split_whitespace().collect();
        assert_eq!(words(s), expected, "{s:?}");
        assert_eq!(word_count(s), expected.len());
        let chars = to_chars(s);
        let spans = word_spans(&chars);
        let cut: Vec<String> = spans.iter().map(|p| slice_text(&chars, p.0, p.1)).collect();
        assert_eq!(cut, expected);
    }
}

#[test]
fn trimming_takes_white_space_off() {
    for s in SAMPLES {
        assert_eq!(trim_text(s), s.trim(), "{s:?}");
        assert_eq!(trim_start_text(s), s.trim_start(), "{s:?}");
    }
}

#[test]
fn sizes_are_counted_in_bytes_and_in_characters() {
    for s in SAMPLES {
        assert_eq!(bytes_in(s), s.len());
        assert_eq!(char_count(s), s.chars().count());
    }
    assert_eq!(bytes_in("\u{1f600}"), 4);
    assert_eq!(char_count("\u{1f600}"), 1);
}

#[test]
fn texts_are_searched_by_characters() {
    let v = to_chars("\u{e9}abcabc");
    assert_eq!(find_text(&v, &to_chars("bc"), 0), Some(2));
    assert_eq!(find_text(&v, &to_chars("bc"), 3), Some(5));
    assert_eq!(find_text(&v, &to_chars("bd"), 0), None);
    assert_eq!(find_text(&v, &to_chars(""), 7), Some(7));
    assert!(matches_at(&v, &to_chars("abc"), 4));
    assert!(!matches_at(&v, &to_chars("abc"), 5));
    assert!(text_contains("haystack", "sta"));
    assert!(!text_contains("haystack", "Sta"));
    assert!(text_contains("x", ""));
    assert!(text_starts_with("haystack", "hay"));
    assert!(!text_starts_with("ha", "hay"));
    assert!(text_first_is("-x", '-') && !text_first_is("", '-'));
    assert!(text_last_is("x-", '-') && !text_last_is("", '-'));
    assert!(text_has_char("a,b", ',') && !text_has_char("ab", ','));
    assert!(same_text("a", "a") && !same_text("a", "ab"));
    assert!(holds_text(&vec!["a".to_string(), "b".to_string()], "b"));
    assert!(!holds_text(&vec!["a".to_string()], "b"));
}

#[test]
fn splitting_and_joining_are_opposites() {
    assert_eq!(split_text("a,,b,", ','), vec!["a", "", "b", ""]);
    assert_eq!(split_text("", ','), vec![""]);
    let parts = split_text("a,,b,", ',');
    assert_eq!(join_texts(&parts, ","), "a,,b,");
    assert_eq!(join_texts(&vec![], ","), "");
    assert_eq!(join_range(&words("a b c d"), 1, 3), "b c");
    assert_eq!(join_range(&words("a b c d"), 2, 2), "");
}

#[test]
fn numbers_are_written_and_read_in_decimal() {
    for n in [0, 7, 10, 99, 100, 18446744073709551615] {
        assert_eq!(decimal(n), n.to_string());
        assert_eq!(parse_u64(&n.to_string()), Some(n));
    }
    for s in [
        "", "+", "-", "+7", "-7", "007", "18446744073709551616", "9223372036854775808",
        "-9223372036854775808", "-9223372036854775809", "1 ", "1.0", "\u{661}", "+-1",
    ] {
        assert_eq!(parse_u64(s), s.parse::<u64>().ok(), "{s:?}");
        assert_eq!(parse_usize(s), s.parse::<usize>().ok(), "{s:?}");
        assert_eq!(parse_i64(s), s.parse::<i64>().ok(), "{s:?}");
    }
}

#[test]
fn texts_that_look_like_numbers() {
    for s in ["0", "-1", "+12", "1.5", "1e9", "1E-9", "1.25e+3", "007"] {
        assert!(is_numeric_like(s), "{s}");
    }
    for s in ["", "-", ".5", "1.", "1e", "1e+", "1.5.2", "0x1", "1 ", "e5", "1e5x"] {
        assert!(!is_numeric_like(s), "{s}");
    }
}

#[test]
fn texts_come_in_the_order_of_their_bytes() {
    let texts = ["", "a", "ab", "b", "B", "\u{e9}", "\u{ffff}", "\u{10000}", "a\u{301}"];
    for a in texts {
        for b in texts {
            assert_eq!(text_before(a, b), a < b, "{a:?} {b:?}");
        }
    }
}

#[test]
fn equal_keys_keep_their_sequence() {
    assert_eq!(order_by(&vec![3, 1, 3, 2, 1], false), vec![1, 4, 3, 0, 2]);
    assert_eq!(order_by(&vec![3, 1, 3, 2, 1], true), vec![0, 2, 3, 1, 4]);
    assert_eq!(order_by(&vec![], true), Vec::<usize>::new());
}
