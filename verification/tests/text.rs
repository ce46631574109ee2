use nix_hapi::strmap::StrMap;
use nix_hapi::text::{
    chars_of, copy_texts, decimal_text, find, is_white_space, join, lines, parse_u64, quote,
    stands_at, text_eq, text_less, trim, trim_end,
};

#[test]
fn strings_are_ordered_by_their_characters() {
    assert!(text_less("a", "b"));
    assert!(text_less("a", "aa"));
    assert!(text_less("", "a"));
    assert!(text_less("Z", "a"));
    assert!(text_less("z", "é"));
    assert!(!text_less("a", "a"));
    assert!(text_eq("é", "é"));
    assert!(!text_eq("a", "aa"));
}

#[test]
fn patterns_are_found_from_a_position_on() {
    let s = chars_of("abcabc");
    let pattern = chars_of("bc");
    assert_eq!(find(&s, &pattern, 0), Some(1));
    assert_eq!(find(&s, &pattern, 2), Some(4));
    assert_eq!(find(&s, &pattern, 5), None);
    assert!(stands_at(&s, &pattern, 4));
    assert!(!stands_at(&s, &pattern, 0));
    assert!(!stands_at(&s, &pattern, 6));
}

#[test]
fn white_space_is_taken_off_the_ends() {
    assert_eq!(trim(" \t a b\u{a0}\n"), "a b");
    assert_eq!(trim_end(" a \r\n"), " a");
    assert_eq!(trim("   "), "");
    assert!(is_white_space('\u{2003}'));
    assert!(!is_white_space('\u{200b}'));
}

#[test]
fn white_space_is_that_of_std() {
    for code in 0..0x3100u32 {
        if let Some(c) = char::from_u32(code) {
            assert_eq!(is_white_space(c), c.is_whitespace(), "{code:x}");
        }
    }
}

#[test]
fn lines_are_those_of_std() {
    for text in ["", "a", "a\n", "a\nb", "a\r\nb\r\n", "\n\n", "a\rb", "a\n\r\n", "\r", "a\r"] {
        let expected: Vec<&str> = text.lines().collect();
        assert_eq!(lines(text), expected, "{text:?}");
    }
}

#[test]
fn numbers_are_written_in_decimal() {
    assert_eq!(decimal_text(0), "0");
    assert_eq!(decimal_text(7), "7");
    assert_eq!(decimal_text(1203), "1203");
    assert_eq!(decimal_text(usize::MAX), usize::MAX.to_string());
}

#[test]
fn numbers_are_read_as_std_reads_them() {
    for text in [
        "0", "7", "+7", "-7", "-0", "", "+", "00012", "18446744073709551615",
        "18446744073709551616", "99999999999999999999", "1 ", "1a", "٣",
    ] {
        assert_eq!(parse_u64(text), text.parse().ok(), "{text:?}");
    }
}

#[test]
fn strings_are_joined() {
    let parts = vec!["a".to_string(), "".to_string(), "c".to_string()];
    assert_eq!(join(&parts, ", "), "a, , c");
    assert_eq!(join(&vec![], ", "), "");
    assert_eq!(copy_texts(&parts), parts);
}

#[test]
fn quoting_escapes() {
    assert_eq!(quote("a\"b\n"), r#""a\"b\n""#);
}

#[test]
fn maps_keep_their_keys_in_order() {
    let map = StrMap::new()
        .put("b".to_string(), 1)
        .put("a".to_string(), 2)
        .put("c".to_string(), 3)
        .put("b".to_string(), 4);
    assert_eq!(map.keys(), vec!["a", "b", "c"]);
    assert_eq!(map.len(), 3);
    assert_eq!(map.get("b"), Some(&4));
    assert_eq!(map.get("d"), None);
    assert_eq!(map.index_of("c"), Some(2));
    assert_eq!((map.key_at(0), map.value_at(0)), ("a", &2));
    assert!(map.contains_key("a"));
    assert!(!map.contains_key(""));
    let pairs = vec![("x".to_string(), 1), ("w".to_string(), 2), ("x".to_string(), 3)];
    let built = StrMap::from_entries(pairs);
    assert_eq!(*built.entries(), vec![("w".to_string(), 2), ("x".to_string(), 3)]);
}
