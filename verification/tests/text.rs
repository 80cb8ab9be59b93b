use tokenizer::text::{chars_of, is_whitespace_char, trim};

#[test]
fn trim_removes_surrounding_whitespace() {
    assert_eq!(trim("  a b \n"), "a b");
    assert_eq!(trim("\u{3000}x\u{a0}"), "x");
    assert_eq!(trim(" \t\n"), "");
    assert_eq!(trim(""), "");
    assert_eq!(trim("word"), "word");
}

#[test]
fn whitespace_matches_std() {
    for c in ['\t', '\n', ' ', '\u{85}', '\u{a0}', '\u{2000}', '\u{200a}', '\u{3000}', 'a', '\u{200b}', '-'] {
        assert_eq!(is_whitespace_char(c), c.is_whitespace(), "char {:?}", c);
    }
    for u in 0u32..0x3100 {
        if let Some(c) = char::from_u32(u) {
            assert_eq!(is_whitespace_char(c), c.is_whitespace(), "char {:?}", c);
        }
    }
}

#[test]
fn chars_of_collects_all_characters() {
    assert_eq!(chars_of("aé✓"), vec!['a', 'é', '✓']);
}
