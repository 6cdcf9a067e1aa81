use vireo_mail::text::{
    begins_ignoring_case, chars_of, contains_char, eq_ignoring_case, find_last_past,
    is_white_space, join, split, split_first, to_decimal, to_lower, to_lower_char, trim, Separator,
};

#[test]
fn white_space_and_case_are_those_of_the_standard_library() {
    for c in '\0'..=char::MAX {
        assert_eq!(is_white_space(c), c.is_whitespace(), "{c:?}");
        assert_eq!(to_lower_char(c), c.to_ascii_lowercase(), "{c:?}");
    }
}

#[test]
fn texts_are_trimmed_and_lowered() {
    for s in ["", " ", "a", "\u{a0}a b\t\r\n", "\u{3000}\u{e9} ", "x\u{200b} "] {
        assert_eq!(trim(s), s.trim());
        assert_eq!(trim(trim(s)), trim(s));
    }
    assert_eq!(to_lower("ABC\u{c9}z"), "ABC\u{c9}z".to_ascii_lowercase());
    assert_eq!(chars_of("a\u{20ac}b"), vec!['a', '\u{20ac}', 'b']);
}

#[test]
fn texts_are_split_and_joined() {
    assert_eq!(split("a,,b,", Separator::Char(',')), vec!["a", "", "b", ""]);
    assert_eq!(split("", Separator::Char(',')), vec![""]);
    assert_eq!(split("a\r\nb", Separator::LineBreak), vec!["a", "", "b"]);
    assert_eq!(split("a, b\u{2003}c", Separator::CommaOrSpace), vec!["a", "", "b", "c"]);
    assert_eq!(split_first("k=v=w", '='), ("k", "v=w"));
    assert_eq!(split_first("k", '='), ("k", ""));
    let parts = |v: &[&str]| -> Vec<String> { v.iter().map(|x| x.to_string()).collect() };
    assert_eq!(join(&parts(&[]), ", "), "");
    assert_eq!(join(&parts(&["a"]), ", "), "a");
    assert_eq!(join(&parts(&["a", "", "b"]), ", "), "a, , b");
}

#[test]
fn texts_are_searched() {
    assert!(contains_char("a@b", '@'));
    assert!(!contains_char("ab", '@'));
    assert_eq!(find_last_past(&chars_of("a>b>c"), '>'), 4);
    assert_eq!(find_last_past(&chars_of("abc"), '>'), 0);
    assert!(eq_ignoring_case("One-Click", "ONE-CLICK"));
    assert!(!eq_ignoring_case("\u{e9}", "\u{c9}"));
    assert!(begins_ignoring_case("HTTPS://x", "https://"));
    assert!(!begins_ignoring_case("https:/", "https://"));
}

#[test]
fn numbers_are_written_in_decimal() {
    for n in [0, 7, 10, 404, 9999, 65535] {
        assert_eq!(to_decimal(n), n.to_string());
    }
}
