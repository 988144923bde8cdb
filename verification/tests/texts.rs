use chaz::ordered::SortedMap;
use chaz::text::{
    comes_before, contains, decimal, is_blank, is_white_space, join, join3, replace, same_text,
    strip_prefix, strip_suffix, trim,
};

#[test]
fn white_space_is_what_unicode_says() {
    for code in 0..=0x10ffffu32 {
        if let Some(c) = char::from_u32(code) {
            assert_eq!(is_white_space(c), c.is_whitespace(), "{code:x}");
        }
    }
}

#[test]
fn texts_are_ordered_as_std_orders_them() {
    let samples =
        ["", "a", "ab", "abc", "b", "A", "task-1", "task-10", "task-2", "é", "\u{10000}", "\u{ffff}"];
    for a in samples {
        for b in samples {
            assert_eq!(comes_before(a, b), a < b, "{a:?} {b:?}");
            assert_eq!(same_text(a, b), a == b);
        }
    }
}

#[test]
fn searching_and_replacing_go_left_to_right() {
    for (text, pattern, with) in [
        ("aaa", "aa", "b"),
        ("abcabc", "bc", "{bc}"),
        ("abc", "x", "y"),
        ("", "x", "y"),
        ("{previous}", "{previous}", ""),
        ("ababab", "abab", "c"),
        ("één", "é", "e"),
    ] {
        assert_eq!(replace(text, pattern, with), text.replace(pattern, with), "{text}");
        assert_eq!(contains(text, pattern), text.contains(pattern), "{text}");
    }
}

#[test]
fn ends_are_stripped_and_trimmed() {
    for text in ["", " ", " a ", "\u{3000}a b\n", "```x```", "``", "```"] {
        assert_eq!(trim(text), text.trim());
        assert_eq!(is_blank(text), text.trim().is_empty());
        assert_eq!(strip_prefix(text, "```").as_deref(), text.strip_prefix("```"));
        assert_eq!(strip_suffix(text, "```").as_deref(), text.strip_suffix("```"));
    }
}

#[test]
fn numerals_are_decimal() {
    for n in [0, 7, 10, 99, 100, 12345, u64::MAX] {
        assert_eq!(decimal(n), n.to_string());
    }
    assert_eq!(join("a", "b"), "ab");
    assert_eq!(join3("a", "b", "c"), "abc");
}

#[test]
fn maps_keep_their_keys_in_order() {
    let mut map = SortedMap::new();
    assert!(map.is_empty());
    assert_eq!(map.insert("b".to_string(), 1), None);
    assert_eq!(map.insert("a".to_string(), 2), None);
    assert_eq!(map.insert("c".to_string(), 3), None);
    assert_eq!(map.insert("b".to_string(), 4), Some(1));
    assert_eq!(map.len(), 3);
    assert_eq!(map.key_at(0), "a");
    assert_eq!(map.key_at(1), "b");
    assert_eq!(map.value_at(1), &4);
    assert_eq!(map.get("c"), Some(&3));
    assert_eq!(map.get("d"), None);
    assert!(map.contains_key("a"));
}
