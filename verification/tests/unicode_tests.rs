use kt_core::unicode::{bidi_category, byte_is_whitespace, char_is_ltr, class_is_ltr, str_is_ltr};

#[test]
fn char_rtl() {
    for c in '\0'..char::MAX {
        assert_eq!(char_is_ltr(c), class_is_ltr(bidi_category(c)))
    }
}

#[test]
fn str_ltr_examples() {
    assert!(str_is_ltr("hello, world! 123"));
    assert!(str_is_ltr(""));
    // Hebrew letters are right-to-left
    assert!(!str_is_ltr("shalom \u{05D0}"));
    // Arabic letters are right-to-left
    assert!(!str_is_ltr("\u{0627}\u{0644}"));
    // an explicit directional override also disqualifies a string
    assert!(!str_is_ltr("abc\u{202E}def"));
}

#[test]
fn whitespace_bytes_match_std() {
    for b in 0u16..=254 {
        let b = b as u8;
        assert_eq!(byte_is_whitespace(b), (b as char).is_whitespace(), "byte {:#x}", b);
    }
}
