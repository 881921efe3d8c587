//! Text primitives against those of the standard library.
use mailgraph::numbers::{i64_text, pad_three, parse_i64, parse_usize, u64_text, usize_text};
use mailgraph::pieces::{contains_any, is_one_of, join, lines, split};
use mailgraph::sort::{all_distinct, count_distinct, not_after, sort, sort_distinct};
use mailgraph::text::{
    contains_char, contains_space, contains_text, from_chars, glue, is_space_char, lower_char,
    rsplit_once, same_text, split_once, starts_with, to_chars, to_lower, to_upper, trim,
    upper_char,
};

const SAMPLES: [&str; 12] = [
    "",
    "a",
    " a b ",
    "a,b,,c",
    "Ünïcode ÄÖ",
    "\u{2003}wide\u{3000}",
    "line\none\r\ntwo\n",
    "x\r",
    "\t<a@b>\t",
    ",",
    "aaa",
    "a:b:c",
];

fn strings(parts: &[&str]) -> Vec<String> {
    parts.iter().map(|p| p.to_string()).collect()
}

#[test]
fn white_space_is_what_unicode_says() {
    for n in 0..=0x10ffffu32 {
        if let Some(c) = char::from_u32(n) {
            assert_eq!(is_space_char(c), c.is_whitespace(), "{n:x}");
            assert_eq!(lower_char(c), c.to_ascii_lowercase());
            assert_eq!(upper_char(c), c.to_ascii_uppercase());
        }
    }
}

#[test]
fn cutting_and_joining() {
    for s in SAMPLES {
        assert_eq!(trim(s), s.trim());
        assert_eq!(to_lower(s), s.to_ascii_lowercase());
        assert_eq!(to_upper(s), s.to_ascii_uppercase());
        assert_eq!(split(s, ','), strings(&s.split(',').collect::<Vec<_>>()));
        assert_eq!(lines(s), strings(&s.lines().collect::<Vec<_>>()));
        assert_eq!(split_once(s, ':'), s.split_once(':'));
        assert_eq!(rsplit_once(s, ':'), s.rsplit_once(':'));
        assert_eq!(contains_char(s, 'b'), s.contains('b'));
        assert_eq!(contains_space(s), s.chars().any(char::is_whitespace));
        assert_eq!(from_chars(&to_chars(s)), s);
        assert_eq!(glue(s, "tail"), format!("{s}tail"));
        for p in SAMPLES {
            assert_eq!(contains_text(s, p), s.contains(p), "{s:?} {p:?}");
            assert_eq!(starts_with(s, p), s.starts_with(p));
            assert_eq!(same_text(s, p), s == p);
            assert_eq!(not_after(s, p), s <= p, "{s:?} {p:?}");
        }
    }
    assert_eq!(join(&strings(&["a", "b", "c"]), ", "), "a, b, c");
    assert_eq!(join(&strings(&["a"]), ", "), "a");
    assert_eq!(join(&Vec::new(), ", "), "");
}

#[test]
fn looking_for_terms() {
    let terms = strings(&["no", "reply"]);
    assert!(contains_any("replying", &terms));
    assert!(!contains_any("yes", &terms));
    assert!(is_one_of("reply", &terms));
    assert!(!is_one_of("repl", &terms));
    assert!(!contains_any("x", &Vec::new()));
}

#[test]
fn numbers_are_written_and_read() {
    for n in [0u64, 7, 10, 99, 100, 12345, u64::MAX] {
        assert_eq!(u64_text(n), n.to_string());
    }
    for n in [i64::MIN, -100, -1, 0, 1, 42, i64::MAX] {
        assert_eq!(i64_text(n), n.to_string());
        assert_eq!(parse_i64(&n.to_string()), Some(n));
    }
    assert_eq!(usize_text(usize::MAX), usize::MAX.to_string());
    for s in [
        "", "0", "+5", "-5", "-0", "+", "-", "007", "1a", " 1", "18446744073709551615",
        "18446744073709551616", "9223372036854775807", "9223372036854775808",
        "-9223372036854775808", "-9223372036854775809", "99999999999999999999999999",
    ] {
        assert_eq!(parse_usize(s), s.parse::<usize>().ok(), "{s}");
        assert_eq!(parse_i64(s), s.parse::<i64>().ok(), "{s}");
    }
    assert_eq!(pad_three("7".to_string()), "007");
    assert_eq!(pad_three("1234".to_string()), "1234");
}

#[test]
fn sorting_keeps_everything_in_order() {
    let words = strings(&["pear", "apple", "fig", "apple", "Zoe", "ähre"]);
    let mut expected = words.clone();
    expected.sort();
    assert_eq!(sort(words.clone()), expected);
    expected.dedup();
    assert_eq!(sort_distinct(words.clone()), expected);
    assert!(!all_distinct(words));
    assert!(all_distinct(expected));
    assert_eq!(count_distinct(vec![3, 1, 3, 2, 1]), 3);
    assert_eq!(count_distinct(Vec::new()), 0);
}
