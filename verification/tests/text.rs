use warpd_rs::text::{
    chars_of, is_white_space, same, starts_with, string_of, to_ascii_lowercase, to_decimal,
    to_lower, trim,
};

#[test]
fn white_space_agrees_with_the_standard_library() {
    for code in 0..=0x10ffffu32 {
        if let Some(c) = char::from_u32(code) {
            assert_eq!(is_white_space(c), c.is_whitespace(), "{code:x}");
            assert_eq!(to_lower(c), c.to_ascii_lowercase(), "{code:x}");
        }
    }
}

#[test]
fn trimming_agrees_with_the_standard_library() {
    for s in ["", " ", "a", " a b ", "\t\u{3000}x\u{a0}\n", "\u{2009}\u{2009}", "é ", "\u{200b}a"] {
        assert_eq!(trim(s), s.trim());
    }
}

#[test]
fn lower_case_touches_ascii_only() {
    assert_eq!(to_ascii_lowercase("STDIN Äé Z"), "stdin Äé z");
    assert_eq!(to_ascii_lowercase(""), "");
}

#[test]
fn prefixes_and_equality() {
    assert!(starts_with("abc", ""));
    assert!(starts_with("abc", "ab"));
    assert!(starts_with("abc", "abc"));
    assert!(!starts_with("abc", "abcd"));
    assert!(!starts_with("abc", "b"));
    assert!(same("äb", "äb"));
    assert!(!same("äb", "ä"));
    assert!(!same("ä", "äb"));
    assert!(!same("a", "b"));
}

#[test]
fn strings_of_characters() {
    let v = chars_of("aä€😀");
    assert_eq!(v, vec!['a', 'ä', '€', '😀']);
    assert_eq!(string_of(&v, 1, 3), "ä€");
    assert_eq!(string_of(&v, 2, 2), "");
    assert_eq!(string_of(&v, 0, 4), "aä€😀");
}

#[test]
fn numbers_in_decimal() {
    for n in [0, 7, 10, 99, 100, 1234567890, u64::MAX] {
        assert_eq!(to_decimal(n), n.to_string());
    }
}
