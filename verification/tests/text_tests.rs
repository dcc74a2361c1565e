use hybrid_shared_core::text::{
    concat_text, decimal_text, from_chars, hex_text, is_blank_text, is_white_space, join_texts,
    same_text, split_words, text_less, to_chars, trim_text,
};

const SAMPLES: [&str; 10] = [
    "",
    " ",
    "a",
    "  a b\t\nc  ",
    "\u{3000}契約\u{3000}更新\u{3000}",
    "\u{85}x\u{a0}",
    "no spaces",
    "\u{200b}zero width\u{200b}",
    "\r\n",
    "é à",
];

#[test]
fn white_space_is_that_of_unicode() {
    for n in 0..=0x10ffffu32 {
        if let Some(c) = char::from_u32(n) {
            assert_eq!(is_white_space(c), c.is_whitespace(), "{n:x}");
        }
    }
}

#[test]
fn trimming_takes_spaces_off_both_ends() {
    for s in SAMPLES {
        assert_eq!(trim_text(s), s.trim());
        assert_eq!(is_blank_text(s), s.trim().is_empty());
        assert_eq!(trim_text(&trim_text(s)), trim_text(s));
    }
}

#[test]
fn words_are_split_at_spaces() {
    for s in SAMPLES {
        let words: Vec<String> = s.split_whitespace().map(|w| w.to_string()).collect();
        assert_eq!(split_words(s), words);
    }
}

#[test]
fn texts_are_ordered_by_their_characters() {
    let all = ["", "a", "aa", "ab", "b", "é", "契", "契約", "\u{10000}", "\u{ffff}"];
    for a in all {
        for b in all {
            assert_eq!(text_less(a, b), a < b);
            assert_eq!(same_text(a, b), a == b);
        }
    }
}

#[test]
fn numbers_are_written_in_decimal() {
    for n in [0usize, 7, 10, 99, 100, 1234567890, usize::MAX] {
        assert_eq!(decimal_text(n), n.to_string());
    }
}

#[test]
fn bytes_are_written_in_hexadecimal() {
    assert_eq!(hex_text(&vec![0, 1, 15, 16, 171, 255]), "00010f10abff");
    assert_eq!(hex_text(&Vec::new()), "");
}

#[test]
fn texts_are_joined() {
    let parts = vec!["a".to_string(), "".to_string(), "c".to_string()];
    assert_eq!(join_texts(&parts, "\n"), "a\n\nc");
    assert_eq!(join_texts(&Vec::new(), "\n"), "");
    assert_eq!(concat_text("契", "約"), "契約");
    let chars = to_chars("契約更新");
    assert_eq!(chars.len(), 4);
    assert_eq!(from_chars(&chars, 1, 3), "約更");
}
