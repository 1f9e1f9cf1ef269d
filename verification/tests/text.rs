use semsearch::text::{is_blank_text, is_whitespace};

#[test]
fn whitespace_matches_std_for_every_char() {
    for u in 0u32..=0x10FFFF {
        if let Some(c) = char::from_u32(u) {
            assert_eq!(is_whitespace(c), c.is_whitespace(), "U+{u:04X}");
        }
    }
}

#[test]
fn blank_text_is_whitespace_only() {
    assert!(is_blank_text(""));
    assert!(is_blank_text(" \t\r\n\u{3000}"));
    assert!(!is_blank_text("  x "));
}
