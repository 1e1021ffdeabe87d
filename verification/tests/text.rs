use frame_store::text::{
    chars_of, equals_ignoring_case, find_char, find_text, parse_number, push_decimal, push_text,
    same_text, split_chars, strip_prefix, text_between, text_of, trim,
};

#[test]
fn splits_and_finds() {
    let chars = chars_of("a,b,,");
    let parts: Vec<String> = split_chars(&chars, ',')
        .iter()
        .map(|part| text_of(part))
        .collect();
    assert_eq!(parts, ["a", "b", "", ""]);
    assert_eq!(find_char(&chars, 'b'), Some(2));
    assert_eq!(find_char(&chars, 'x'), None);
    assert_eq!(find_text(&chars_of("http://x://"), "://"), Some(4));
    assert_eq!(find_text(&chars_of("http:/"), "://"), None);
    assert_eq!(strip_prefix(&chars, "a,").map(|rest| text_of(&rest)), Some("b,,".to_owned()));
    assert_eq!(strip_prefix(&chars, "b"), None);
    assert_eq!(text_between(&chars, 1, 3), ",b");
}

#[test]
fn trims_unicode_white_space() {
    assert_eq!(text_of(&trim(&chars_of(" \t a b \u{a0}\u{2003}\r\n"))), "a b");
    assert_eq!(text_of(&trim(&chars_of("  "))), "");
    let white = "\u{9}\u{b}\u{85}\u{1680}\u{200a}\u{2028}\u{2029}\u{202f}\u{205f}\u{3000}";
    assert_eq!(text_of(&trim(&chars_of(white))), "");
    for other in ["\u{8}", "\u{180e}", "\u{200b}", "\u{feff}"] {
        assert_eq!(text_of(&trim(&chars_of(other))), other);
    }
}

#[test]
fn reads_and_writes_numbers() {
    let number = |text: &str, base, max| parse_number(&chars_of(text), base, max);
    assert_eq!(number("42", 10, u64::MAX), Some(42));
    assert_eq!(number("+42", 10, u64::MAX), Some(42));
    assert_eq!(number("18446744073709551615", 10, u64::MAX), Some(u64::MAX));
    assert_eq!(number("18446744073709551616", 10, u64::MAX), None);
    assert_eq!(number("256", 10, 255), None);
    assert_eq!(number("fF", 16, u64::MAX), Some(255));
    assert_eq!(number("", 10, u64::MAX), None);
    assert_eq!(number("+", 10, u64::MAX), None);
    assert_eq!(number("-1", 10, u64::MAX), None);
    let mut text = String::new();
    push_decimal(&mut text, 0);
    push_text(&mut text, ",");
    push_decimal(&mut text, u64::MAX);
    assert_eq!(text, "0,18446744073709551615");
}

#[test]
fn compares_texts() {
    assert!(same_text("a", "a"));
    assert!(!same_text("a", "A"));
    assert!(equals_ignoring_case("TrUe", "true"));
    assert!(!equals_ignoring_case("true", "tru"));
}
