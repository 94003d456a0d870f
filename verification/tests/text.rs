use tangler::text::{
    chars_of, count_leading_spaces, decimal_string, dedent_line, is_whitespace_char, same_text,
    trim_text,
};
use tangler::unwrap_clone;

#[test]
fn leading_spaces_are_counted() {
    assert_eq!(count_leading_spaces(""), 0);
    assert_eq!(count_leading_spaces("abc"), 0);
    assert_eq!(count_leading_spaces("a  "), 0);
    assert_eq!(count_leading_spaces("  abc"), 2);
    assert_eq!(count_leading_spaces("    a b"), 4);
    assert_eq!(count_leading_spaces("   "), 3);
    assert_eq!(count_leading_spaces(" \tx"), 1);
    assert_eq!(count_leading_spaces("\t x"), 0);
}

#[test]
fn dedent_strips_where_the_line_is_long_enough() {
    assert_eq!(dedent_line("  abc", 2), "abc");
    assert_eq!(dedent_line("  abc", 0), "  abc");
    assert_eq!(dedent_line("abc", 3), "");
    assert_eq!(dedent_line("ab", 3), "ab");
    assert_eq!(dedent_line("", 1), "");
    assert_eq!(dedent_line("", 0), "");
    assert_eq!(dedent_line("xyz", 1), "yz");
    assert_eq!(dedent_line("\u{e9}\u{e9}x", 2), "x");
}

#[test]
fn trim_strips_white_space_at_both_ends() {
    assert_eq!(trim_text("  name \n"), "name");
    assert_eq!(trim_text("name"), "name");
    assert_eq!(trim_text(" two words\t"), "two words");
    assert_eq!(trim_text(""), "");
    assert_eq!(trim_text(" \t\r\n"), "");
    assert_eq!(trim_text("\u{a0}x\u{3000}"), "x");
    assert_eq!(trim_text("x"), "x");
    assert_eq!(trim_text(" x"), "x");
    assert_eq!(trim_text("x "), "x");
}

#[test]
fn trim_agrees_with_std() {
    for text in ["", " ", "a", " a b ", "\u{2003}a\u{2028}", "\u{200b}a", "\u{85}a\u{1680}"] {
        assert_eq!(trim_text(text), text.trim());
    }
}

#[test]
fn white_space_agrees_with_std() {
    let mut code: u32 = 0;
    while code < 0x11000 {
        if let Some(c) = char::from_u32(code) {
            assert_eq!(is_whitespace_char(c), c.is_whitespace());
        }
        code += 1;
    }
}

#[test]
fn numbers_are_written_in_decimal() {
    assert_eq!(decimal_string(0), "0");
    assert_eq!(decimal_string(7), "7");
    assert_eq!(decimal_string(9), "9");
    assert_eq!(decimal_string(10), "10");
    assert_eq!(decimal_string(42), "42");
    assert_eq!(decimal_string(100), "100");
    assert_eq!(decimal_string(1234567890), "1234567890");
    assert_eq!(decimal_string(usize::MAX), usize::MAX.to_string());
}

#[test]
fn texts_are_compared_by_their_characters() {
    assert!(same_text("", ""));
    assert!(same_text("abc", "abc"));
    assert!(!same_text("abc", "abd"));
    assert!(!same_text("abc", "ab"));
    assert!(!same_text("ab", "abc"));
    assert!(!same_text("", "a"));
    assert!(same_text("\u{e9}", "\u{e9}"));
    assert!(!same_text("\u{e9}", "e"));
}

#[test]
fn characters_are_copied_in_order() {
    assert_eq!(chars_of(""), Vec::<char>::new());
    assert_eq!(chars_of("a\u{e9}b"), vec!['a', '\u{e9}', 'b']);
}

#[test]
fn unwrap_clone_copies_the_value() {
    let held = Some("name".to_string());
    assert_eq!(unwrap_clone(&held), "name");
    assert_eq!(held, Some("name".to_string()));
    assert_eq!(unwrap_clone(&Some(7u32)), 7);
}
