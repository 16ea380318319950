use ide_server::text::{
    byte_index_exec, chars_eq_str, chars_of, compare_chars, contains_str, decimal_string,
    ends_with_str, find_char_exec, is_one_of, is_whitespace_char, lines_of, parse_u64_chars,
    rfind_in_prefix, split_chars, string_from_chars, to_ascii_lower, trim_str, utf8_len_below,
    words_of, Order,
};

fn cs(s: &str) -> Vec<char> {
    s.chars().collect()
}

fn strings(v: Vec<Vec<char>>) -> Vec<String> {
    v.into_iter().map(|c| c.into_iter().collect()).collect()
}

#[test]
fn trim_removes_unicode_whitespace_at_both_ends() {
    assert_eq!(trim_str("  main\n"), "main");
    assert_eq!(trim_str("\u{3000}a b\u{a0}\t"), "a b");
    assert_eq!(trim_str(" \n\t "), "");
    assert_eq!(trim_str(""), "");
    assert_eq!(trim_str("x"), "x");
}

#[test]
fn whitespace_set_matches_std() {
    for c in ['\t', '\n', '\u{b}', '\u{c}', '\r', ' ', '\u{85}', '\u{a0}', '\u{1680}', '\u{2000}', '\u{200a}', '\u{2028}', '\u{2029}', '\u{202f}', '\u{205f}', '\u{3000}', 'a', '\u{200b}', '_', '\u{feff}'] {
        assert_eq!(is_whitespace_char(c), c.is_whitespace(), "{:?}", c);
    }
}

#[test]
fn decimal_rendering() {
    assert_eq!(decimal_string(0), "0");
    assert_eq!(decimal_string(7), "7");
    assert_eq!(decimal_string(1234), "1234");
    assert_eq!(decimal_string(u64::MAX), "18446744073709551615");
}

#[test]
fn parse_u64_follows_str_parse() {
    for s in ["0", "007", "+5", "1234", "18446744073709551615", "18446744073709551616", "", "+", "-1", "1a", "++1", " 1", "99999999999999999999999"] {
        assert_eq!(parse_u64_chars(&cs(s)), s.parse::<u64>().ok(), "{:?}", s);
    }
}

#[test]
fn parse_of_rendered_number_roundtrips() {
    for n in [0u64, 9, 10, 4096, u64::MAX] {
        assert_eq!(parse_u64_chars(&cs(&decimal_string(n))), Some(n));
    }
}

#[test]
fn split_matches_str_split() {
    for s in ["a\0b", "", "\0", "a\0\0b\0", "abc"] {
        let expected: Vec<String> = s.split('\0').map(String::from).collect();
        assert_eq!(strings(split_chars(&cs(s), '\0')), expected, "{:?}", s);
    }
}

#[test]
fn lines_match_str_lines() {
    for s in ["a\r\nb\n", "a\r", "", "a\n\nb", "\n", "x\ry\n", "one"] {
        let expected: Vec<String> = s.lines().map(String::from).collect();
        assert_eq!(strings(lines_of(&cs(s))), expected, "{:?}", s);
    }
}

#[test]
fn words_match_split_whitespace() {
    for s in ["100644 blob abc   12", "  a\u{3000}b  ", "", "   ", "x"] {
        let expected: Vec<String> = s.split_whitespace().map(String::from).collect();
        assert_eq!(strings(words_of(&cs(s))), expected, "{:?}", s);
    }
}

#[test]
fn compare_orders_by_code_point() {
    assert_eq!(compare_chars(&cs("a"), &cs("b")), Order::Less);
    assert_eq!(compare_chars(&cs("b"), &cs("a")), Order::Greater);
    assert_eq!(compare_chars(&cs("ab"), &cs("ab")), Order::Equal);
    assert_eq!(compare_chars(&cs("a"), &cs("ab")), Order::Less);
    assert_eq!(compare_chars(&cs("Z"), &cs("a")), Order::Less);
    assert_eq!(compare_chars(&cs("é"), &cs("z")), Order::Greater);
    assert_eq!(compare_chars(&cs(""), &cs("")), Order::Equal);
}

#[test]
fn substring_tests() {
    assert!(contains_str(&cs("foo.test.ts"), ".test."));
    assert!(!contains_str(&cs("foo.tes"), ".test."));
    assert!(contains_str(&cs("abc"), ""));
    assert!(ends_with_str(&cs("a_test.rs"), "_test.rs"));
    assert!(!ends_with_str(&cs("test.rs"), "_test.rs"));
    assert!(chars_eq_str(&cs("HEAD"), "HEAD"));
    assert!(!chars_eq_str(&cs("HEA"), "HEAD"));
    assert!(is_one_of(&cs("doc"), &vec!["docs", "doc"]));
    assert!(!is_one_of(&cs("do"), &vec!["docs", "doc"]));
}

#[test]
fn finding_characters() {
    assert_eq!(find_char_exec(&cs("ab\tc"), '\t'), Some(2));
    assert_eq!(find_char_exec(&cs("abc"), '\t'), None);
    assert_eq!(rfind_in_prefix(&cs("a/b/c"), 5, '/'), Some(3));
    assert_eq!(rfind_in_prefix(&cs("a/b/c"), 3, '/'), Some(1));
    assert_eq!(rfind_in_prefix(&cs("a/b/c"), 1, '/'), None);
}

#[test]
fn ascii_lowercase_only() {
    let lower: String = to_ascii_lower(&cs("SRC/Main.RS É")).into_iter().collect();
    assert_eq!(lower, "src/main.rs É");
}

#[test]
fn utf8_byte_positions() {
    let v = cs("aé bcd");
    assert_eq!(byte_index_exec(&v, 0), Some(0));
    assert_eq!(byte_index_exec(&v, 1), Some(1));
    assert_eq!(byte_index_exec(&v, 2), None);
    assert_eq!(byte_index_exec(&v, 3), Some(2));
    assert_eq!(byte_index_exec(&v, 7), Some(6));
    assert_eq!(byte_index_exec(&v, 8), None);
    assert!(utf8_len_below(&cs("é"), 3));
    assert!(!utf8_len_below(&cs("éa"), 3));
    assert!(!utf8_len_below(&cs(""), 0));
    assert_eq!(string_from_chars(&cs("x€")), "x€");
    assert_eq!(chars_of("x€"), vec!['x', '€']);
}
