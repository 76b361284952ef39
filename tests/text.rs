use bofh::text::{ends_with_space, has_prefix, same_text, split_words, suffix_after, text_less};

#[test]
fn prefixes() {
    assert!(has_prefix("usermap", "user"));
    assert!(has_prefix("user", "user"));
    assert!(has_prefix("user", ""));
    assert!(!has_prefix("us", "user"));
    assert!(!has_prefix("group", "gx"));
    assert!(has_prefix("æøå", "æø"));
}

#[test]
fn equal_texts() {
    assert!(same_text("info", "info"));
    assert!(!same_text("info", "inform"));
    assert!(!same_text("inform", "info"));
    assert!(same_text("", ""));
}

#[test]
fn text_order_is_by_code_point() {
    assert!(text_less("user", "usermap"));
    assert!(!text_less("usermap", "user"));
    assert!(text_less("", "a"));
    assert!(!text_less("a", "a"));
    assert!(text_less("B", "a"));
    assert!(text_less("z", "æ"));
    assert!(!text_less("æ", "z"));
}

#[test]
fn trailing_whitespace_and_suffixes() {
    assert!(ends_with_space("user "));
    assert!(ends_with_space("user\t"));
    assert!(ends_with_space("user\u{a0}"));
    assert!(!ends_with_space("user"));
    assert!(!ends_with_space(""));
    assert_eq!(suffix_after("usermap", 4), "map");
    assert_eq!(suffix_after("æøå", 1), "øå");
    assert_eq!(suffix_after("ab", 2), "");
}

#[test]
fn words_with_unicode_whitespace() {
    assert_eq!(split_words("a\u{a0}b\u{3000}c"), vec!["a", "b", "c"]);
    assert_eq!(split_words("ærlig  øl"), vec!["ærlig", "øl"]);
}

#[test]
fn whitespace_agrees_with_std() {
    for u in 0..=0x10FFFFu32 {
        if let Some(c) = char::from_u32(u) {
            assert_eq!(bofh::text::is_space(c), c.is_whitespace(), "U+{:04X}", u);
        }
    }
}
