//! Text operations, held against those of the standard library.
use yoagent::text::{
    join, lines, lower, same, split, split_after, strip_prefix, take_chars, trim, trim_char,
    trim_end_char, trim_start_char, utf8_width, white_space, write_decimal,
};

const SAMPLES: [&str; 12] = [
    "",
    " ",
    "a",
    " a b ",
    "\u{3000}é\u{85}",
    "data: x",
    "data:",
    "a\nb\r\nc\r",
    "\n\n",
    "\r\n",
    "日本語;;🎉;",
    "//a//",
];

#[test]
fn white_space_is_that_of_char() {
    for c in '\0'..=char::MAX {
        assert_eq!(white_space(c), c.is_whitespace(), "{c:?}");
    }
}

#[test]
fn widths_are_those_of_char() {
    for c in ['a', '\u{7f}', '\u{80}', 'é', '\u{7ff}', '\u{800}', '日', '\u{ffff}', '🎉', char::MAX] {
        assert_eq!(utf8_width(c), c.len_utf8());
    }
}

#[test]
fn trimming_agrees_with_str() {
    for s in SAMPLES {
        assert_eq!(trim(s), s.trim());
        assert_eq!(trim_start_char(s, ' '), s.trim_start_matches(' '));
        assert_eq!(trim_end_char(s, '/'), s.trim_end_matches('/'));
        assert_eq!(trim_char(s, '/'), s.trim_matches('/'));
    }
}

#[test]
fn splitting_agrees_with_str() {
    for s in SAMPLES {
        assert_eq!(lines(s), s.lines().collect::<Vec<_>>());
        assert_eq!(split(s, ';'), s.split(';').collect::<Vec<_>>());
        assert_eq!(strip_prefix(s, "data:"), s.strip_prefix("data:"));
        assert_eq!(strip_prefix(s, ""), s.strip_prefix(""));
        for n in 0..4 {
            assert_eq!(take_chars(s, n), s.chars().take(n).collect::<String>());
        }
    }
    assert_eq!(split_after("日本", 1), ("日", "本"));
}

#[test]
fn texts_are_compared_and_joined() {
    assert!(same("é", "é"));
    assert!(!same("é", "e"));
    assert!(!same("a", "ab"));
    assert_eq!(join(&[], ", "), "");
    assert_eq!(join(&["a"], ", "), "a");
    assert_eq!(join(&["a", "", "b"], ", "), "a, , b");
    assert_eq!(lower("ISO-8859-É"), "ISO-8859-É".to_ascii_lowercase());
}

#[test]
fn numbers_are_written_in_decimal() {
    for n in [0, 7, 10, 99, 100, 1234567890, u64::MAX] {
        assert_eq!(write_decimal(n), n.to_string());
    }
}
