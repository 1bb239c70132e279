use sequential_combination::text::{
    chars_of, is_whitespace, join_strings, replace_char_in, str_contains, trim_range,
};

#[test]
fn whitespace_is_unicode_white_space() {
    for c in ['\t', '\n', '\u{b}', '\u{c}', '\r', ' ', '\u{85}', '\u{a0}', '\u{1680}', '\u{2000}', '\u{200a}', '\u{2028}', '\u{2029}', '\u{202f}', '\u{205f}', '\u{3000}'] {
        assert!(is_whitespace(c), "{:?}", c);
    }
    for c in ['a', '\u{200b}', '\u{feff}', '#', '\u{180e}'] {
        assert!(!is_whitespace(c), "{:?}", c);
    }
    for u in 0..0x3100u32 {
        if let Some(c) = char::from_u32(u) {
            assert_eq!(is_whitespace(c), c.is_whitespace(), "{:?}", c);
        }
    }
}

#[test]
fn trim_range_matches_str_trim() {
    let s = " \u{3000} a b\t\n";
    let v = chars_of(s);
    let (a, b) = trim_range(&v, 0, v.len());
    let t: String = v[a..b].iter().collect();
    assert_eq!(t, s.trim());
}

#[test]
fn contains_and_join_and_replace() {
    assert!(str_contains("roadmap", "road"));
    assert!(str_contains("x", ""));
    assert!(!str_contains("ro", "road"));
    assert_eq!(join_strings(&vec!["a".to_string(), "b".to_string(), "c".to_string()], ", "), "a, b, c");
    assert_eq!(join_strings(&vec![], ", "), "");
    assert_eq!(replace_char_in("a b  c", ' ', '-'), "a-b--c");
}
