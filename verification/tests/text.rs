//! The text primitives a row is laid out from.
use clave_bar::text::printable;

#[test]
fn printable_turns_control_characters_into_spaces() {
    assert_eq!(printable("fix\nthe\tbug"), "fix the bug");
    assert_eq!(printable("bell\u{7}and\u{1b}[31mred"), "bell and [31mred");
    assert_eq!(printable("c1\u{85}next\u{9f}end\u{a0}nbsp"), "c1 next end\u{a0}nbsp");
}

#[test]
fn printable_keeps_ordinary_text_and_wide_glyphs() {
    assert_eq!(printable(""), "");
    assert_eq!(printable("résumé 日本 \u{2733}"), "résumé 日本 \u{2733}");
}
