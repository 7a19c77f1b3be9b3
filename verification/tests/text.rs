//! Texts as the library reads and writes them.

use panicgraph::text;

#[test]
fn words_and_lines() {
    assert_eq!(text::leading_word("  GET /x "), "GET");
    assert_eq!(text::after_word("  GET /x "), " /x ");
    assert_eq!(text::trailing_word("a b  "), "b");
    assert_eq!(text::lines("a\r\nb\n\nc"), ["a", "b", "", "c"]);
    assert_eq!(text::split("a,,b", ','), ["a", "", "b"]);
    assert_eq!(text::trim(" \t x y\n"), "x y");
}

#[test]
fn pieces_of_a_text() {
    assert_eq!(text::head_of("a=b=c", '='), "a");
    assert_eq!(text::head_of("abc", '='), "abc");
    assert_eq!(text::without("a::b::a::c", "a::"), "b::c");
    assert_eq!(text::without("aaa", "aa"), "a");
    assert_eq!(text::lower("Accept-ENCODING: \u{c4}"), "accept-encoding: \u{c4}");
    assert_eq!(text::split_once("a::b::c", "::"), Some(("a".to_owned(), "b::c".to_owned())));
}

#[test]
fn numbers_are_written_as_they_are_displayed() {
    for n in [0u64, 7, 10, 1234567890, u64::MAX] {
        assert_eq!(text::number(n), format!("{n}"));
        assert_eq!(text::hex(n), format!("{n:016x}"));
    }
}

#[test]
fn texts_are_ordered_as_strings_are() {
    for (a, b) in [("a", "b"), ("a", "ab"), ("", "x"), ("b", "ab"), ("same", "same")] {
        assert_eq!(text::before(a, b), a < b, "for {a:?} and {b:?}");
    }
}
