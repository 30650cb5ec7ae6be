use glyphwire::text::{chars_of, stats_label, text_stats, to_decimal, white_space};

#[test]
fn decimal_numerals() {
    assert_eq!(to_decimal(0), "0");
    assert_eq!(to_decimal(7), "7");
    assert_eq!(to_decimal(10), "10");
    assert_eq!(to_decimal(4096), "4096");
    assert_eq!(to_decimal(usize::MAX), usize::MAX.to_string());
}

#[test]
fn statistics_match_std_counts() {
    for text in ["", "one", "one\n", "one\n\ntwo", "\n", "a\r\nb\r\n", "  spaced   words\there ", "x\u{a0}y\u{3000}z", "é 🦀"] {
        let stats = text_stats(text);
        assert_eq!(stats.lines, text.lines().count(), "{text:?}");
        assert_eq!(stats.words, text.split_whitespace().count(), "{text:?}");
        assert_eq!(stats.characters, text.chars().count(), "{text:?}");
    }
}

#[test]
fn footer_label_counts_at_least_one_line() {
    assert_eq!(stats_label(""), "1 lines · 0 words · 0 characters");
    assert_eq!(stats_label("# Title\n\nSome text."), "3 lines · 4 words · 19 characters");
}

#[test]
fn white_space_matches_char_is_whitespace() {
    for code in 0u32..0x3100 {
        if let Some(c) = char::from_u32(code) {
            assert_eq!(white_space(c), c.is_whitespace(), "{code:x}");
        }
    }
    assert_eq!(chars_of("añ🦀"), vec!['a', 'ñ', '🦀']);
}
