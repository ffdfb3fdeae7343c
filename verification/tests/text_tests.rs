use bomsync::text::{
    blank, cleanse_string, color_to_status, decimal_string, find_invalid_char,
    fullwidth_to_halfwidth, is_truthy, join, make_column_id, parse_column_id, same_text,
    text_contains, text_ends_with, text_has_char, text_starts_with, trim,
};

#[test]
fn trim_removes_surrounding_white_space() {
    assert_eq!(trim("  C1\t"), "C1");
    assert_eq!(trim("\u{3000}R 2\u{a0}"), "R 2");
    assert_eq!(trim("   "), "");
    assert_eq!(trim(""), "");
}

#[test]
fn trim_agrees_with_the_standard_library_on_every_character() {
    let mut u: u32 = 0;
    while u <= 0x10FFFF {
        if let Some(c) = char::from_u32(u) {
            let s = format!("{}x{}", c, c);
            assert_eq!(trim(&s), s.trim());
        }
        u += 1;
    }
}

#[test]
fn blank_cells() {
    assert!(blank(""));
    assert!(blank(" \t\r\n"));
    assert!(!blank(" a "));
}

#[test]
fn decimal_rendering() {
    assert_eq!(decimal_string(0), "0");
    assert_eq!(decimal_string(7), "7");
    assert_eq!(decimal_string(10), "10");
    assert_eq!(decimal_string(1234567890), "1234567890");
    assert_eq!(decimal_string(usize::MAX), usize::MAX.to_string());
}

#[test]
fn column_ids_round_trip() {
    assert_eq!(make_column_id(0), "col-0");
    assert_eq!(make_column_id(12), "col-12");
    assert_eq!(parse_column_id("col-0"), Some(0));
    assert_eq!(parse_column_id("col-12"), Some(12));
    assert_eq!(parse_column_id("col-+3"), Some(3));
    assert_eq!(parse_column_id("col-007"), Some(7));
    assert_eq!(parse_column_id("col-"), None);
    assert_eq!(parse_column_id("col-+"), None);
    assert_eq!(parse_column_id("col--1"), None);
    assert_eq!(parse_column_id("col-1a"), None);
    assert_eq!(parse_column_id("column-1"), None);
    assert_eq!(parse_column_id("col-99999999999999999999999999"), None);
    assert_eq!(parse_column_id(&format!("col-{}", usize::MAX)), Some(usize::MAX));
}

#[test]
fn test_cleanse_string() {
    assert_eq!(cleanse_string("test(123)"), "test123");
    assert_eq!(cleanse_string("テスト（全角）"), "テスト全角");
}

#[test]
fn test_is_truthy() {
    assert!(is_truthy("true"));
    assert!(is_truthy("1"));
    assert!(is_truthy("YES"));
    assert!(!is_truthy("false"));
    assert!(!is_truthy("0"));
}

#[test]
fn wide_characters_are_narrowed() {
    assert_eq!(cleanse_string("ＡＢＣ１２３\u{3000}ｘ！～"), "ABC123 x!~");
    assert_eq!(fullwidth_to_halfwidth('\u{FF01}'), '!');
    assert_eq!(fullwidth_to_halfwidth('\u{FF5E}'), '~');
    assert_eq!(fullwidth_to_halfwidth('\u{FF5F}'), '\u{FF5F}');
    assert_eq!(fullwidth_to_halfwidth('a'), 'a');
}

#[test]
fn truthy_words() {
    for word in ["true", " True ", "1", "yes", "Y", "ON", "はい", "有効"] {
        assert!(is_truthy(word));
    }
    for word in ["", "no", "off", "2", "yes!", "いいえ"] {
        assert!(!is_truthy(word));
    }
}

#[test]
fn invalid_characters_are_the_control_characters_but_tab() {
    assert_eq!(find_invalid_char("abc\tdef"), None);
    assert_eq!(find_invalid_char("テスト 10µF"), None);
    assert_eq!(find_invalid_char("a\u{0}b\u{1}"), Some('\u{0}'));
    assert_eq!(find_invalid_char("line\nbreak"), Some('\n'));
    assert_eq!(find_invalid_char("x\u{7f}"), Some('\u{7f}'));
    assert_eq!(find_invalid_char("x\u{85}"), Some('\u{85}'));
    assert_eq!(find_invalid_char("x\u{a0}"), None);
    assert_eq!(find_invalid_char(""), None);
}

#[test]
fn colours_stand_for_statuses() {
    assert_eq!(color_to_status("#FF0000"), Some("removed"));
    assert_eq!(color_to_status(" ff4d4f "), Some("removed"));
    assert_eq!(color_to_status("Red"), Some("removed"));
    assert_eq!(color_to_status("00ff00"), Some("added"));
    assert_eq!(color_to_status("green"), Some("added"));
    assert_eq!(color_to_status("#ffb347"), Some("modified"));
    assert_eq!(color_to_status("ORANGE"), Some("modified"));
    assert_eq!(color_to_status("grey"), Some("unchanged"));
    assert_eq!(color_to_status("a9a9a9"), Some("unchanged"));
    assert_eq!(color_to_status("blue"), None);
    assert_eq!(color_to_status("#12345"), None);
    assert_eq!(color_to_status(""), None);
}

#[test]
fn substring_search() {
    assert!(text_contains("abcabd", "abd"));
    assert!(text_contains("abc", ""));
    assert!(text_contains("", ""));
    assert!(!text_contains("abc", "abcd"));
    assert!(!text_contains("abc", "ca"));
    assert!(text_starts_with("abc", "ab"));
    assert!(!text_starts_with("abc", "bc"));
    assert!(text_ends_with("abc", "bc"));
    assert!(!text_ends_with("abc", "ab"));
    assert!(text_ends_with("abc", ""));
    assert!(text_has_char("a*b", '*'));
    assert!(!text_has_char("ab", '*'));
}

#[test]
fn joining() {
    assert_eq!(join(&vec![], ", "), "");
    assert_eq!(join(&vec!["a".to_string()], ", "), "a");
    assert_eq!(join(&vec!["a".to_string(), "".to_string(), "c".to_string()], ", "), "a, , c");
}

#[test]
fn texts_are_the_same_when_their_characters_are() {
    assert!(same_text("", ""));
    assert!(same_text("ref", "ref"));
    assert!(same_text("部品番号", "部品番号"));
    assert!(!same_text("ref", "reF"));
    assert!(!same_text("ref", "ref "));
    assert!(!same_text("ref", ""));
    assert!(!same_text("部品番号", "部品番合"));
    assert!(!same_text("é", "e\u{301}"));
}
