//! Texts, numbers and tables.

use joy::json::{place, Json};
use joy::table::{is_less, Table};
use joy::text::{
    char_count, contains, ends_with, is_ascii_alnum, is_ascii_digit, is_blank, is_blank_text,
    join, lines, parse_i32, parse_i64, parse_unsigned, push_decimal, replace, same, split,
    starts_with, take_chars, to_decimal, to_signed, trim, words,
};

fn list(items: &[&str]) -> Vec<String> {
    items.iter().map(|i| i.to_string()).collect()
}

#[test]
fn blanks_are_those_of_unicode() {
    for c in [' ', '\t', '\n', '\u{3000}', '\u{a0}', '\u{85}'] {
        assert!(is_blank(c), "{:?}", c);
        assert!(c.is_whitespace());
    }
    for c in ['a', '\u{200b}', '。', '0'] {
        assert!(!is_blank(c), "{:?}", c);
        assert!(!c.is_whitespace());
    }
    for code in 0..0x11_0000u32 {
        if let Some(c) = char::from_u32(code) {
            assert_eq!(is_blank(c), c.is_whitespace(), "{:?}", c);
        }
    }
}

#[test]
fn texts_are_trimmed_cut_and_searched() {
    assert_eq!(trim("\u{3000} a b\n"), "a b");
    assert_eq!(trim("   "), "");
    assert!(is_blank_text(" \t"));
    assert_eq!(take_chars("你好吗", 2), "你好");
    assert_eq!(char_count("你好"), 2);
    assert!(same("a", "a") && !same("a", "b"));
    assert!(contains("hello", "ell") && contains("x", "") && !contains("", "x"));
    assert!(starts_with("hello", "he") && !starts_with("h", "he"));
    assert!(ends_with("hello", "lo") && !ends_with("o", "lo"));
    assert!(is_ascii_digit('7') && !is_ascii_digit('七'));
    assert!(is_ascii_alnum('z') && !is_ascii_alnum('_'));
}

#[test]
fn texts_are_taken_apart_as_std_does() {
    for s in ["", "a", "a\n", "a\nb", "a\r\nb\r\n", "\n\n", "a\n\nb", "a\r"] {
        let ours = lines(s);
        let theirs: Vec<String> = s.lines().map(str::to_string).collect();
        assert_eq!(ours, theirs, "{:?}", s);
    }
    for s in ["", ";", "a;b", ";a;", "a"] {
        let theirs: Vec<String> = s.split(';').map(str::to_string).collect();
        assert_eq!(split(s, ';'), theirs, "{:?}", s);
    }
    for s in ["", "  a  b\tc ", "\u{3000}x"] {
        let theirs: Vec<String> = s.split_whitespace().map(str::to_string).collect();
        assert_eq!(words(s), theirs, "{:?}", s);
    }
    for (s, from, to) in [
        ("aaa", "aa", "b"),
        ("a-b-c", "-", "--"),
        ("abc", "x", "y"),
        ("", "x", "y"),
    ] {
        assert_eq!(replace(s, from, to), s.replace(from, to));
    }
    assert_eq!(join(&list(&["a", "b"]), ", "), "a, b");
    assert_eq!(join(&vec![], ", "), "");
}

#[test]
fn numbers_read_back() {
    for n in [0u64, 7, 10, 999, u64::MAX] {
        assert_eq!(to_decimal(n), n.to_string());
        assert_eq!(parse_unsigned(&to_decimal(n), u64::MAX), Some(n));
    }
    for n in [0i64, -1, 42, i64::MIN, i64::MAX] {
        assert_eq!(to_signed(n), n.to_string());
        assert_eq!(parse_i64(&to_signed(n)), Some(n));
    }
    let mut out = "n=".to_string();
    push_decimal(&mut out, 12);
    assert_eq!(out, "n=12");
}

#[test]
fn numbers_are_parsed_as_std_does() {
    for s in [
        "", "0", "-0", "+5", "-5", "007", "1a", " 1", "2147483647", "2147483648", "-2147483648",
        "-2147483649", "--1", "+", "-", "9223372036854775808",
    ] {
        assert_eq!(parse_i32(s), s.parse::<i32>().ok(), "{:?}", s);
        assert_eq!(parse_i64(s), s.parse::<i64>().ok(), "{:?}", s);
        assert_eq!(
            parse_unsigned(s, u32::MAX as u64),
            s.parse::<u32>().ok().map(u64::from),
            "{:?}",
            s
        );
    }
}

#[test]
fn a_table_keeps_its_keys_in_order() {
    let mut t: Table<i32> = Table::new();
    t.insert("b".to_string(), 1);
    t.insert("a".to_string(), 2);
    t.insert("好".to_string(), 3);
    t.insert("b".to_string(), 4);
    assert_eq!(t.len(), 3);
    assert_eq!(t.keys(), list(&["a", "b", "好"]));
    assert_eq!(t.get("b"), Some(&4));
    assert_eq!(t.entry(0), (&"a".to_string(), &2));
    assert_eq!(t.remove("a"), Some(2));
    assert_eq!(t.remove("a"), None);
    assert!(!t.has("a") && t.has("b"));
    assert_eq!(
        t.into_entries(),
        vec![("b".to_string(), 4), ("好".to_string(), 3)]
    );
    for (a, b) in [("", "a"), ("a", "b"), ("a", "ab"), ("z", "好"), ("a", "a")] {
        assert_eq!(is_less(a, b), a < b);
        assert_eq!(is_less(b, a), b < a);
    }
}

#[test]
fn values_answer_as_what_they_are() {
    assert_eq!(Json::of_text("x").as_str(), Some("x"));
    assert_eq!(Json::Int(3).as_str(), None);
    assert_eq!(Json::Int(3).as_i64(), Some(3));
    assert_eq!(Json::Bool(true).as_i64(), None);
    assert_eq!(place("/skills", 2, "name"), "/skills/2/name");
}
