use zapfast::snippet::{search_is_empty, snippet_highlight};
use zapfast::viewer::viewer_title;

#[test]
fn the_query_is_found_ignoring_case_and_surrounding_space() {
    assert_eq!(snippet_highlight("Hello World", "  world "), Some((6, 11)));
    assert_eq!(snippet_highlight("Hello World", "HELLO"), Some((0, 5)));
    assert_eq!(snippet_highlight("abcabc", "bc"), Some((1, 3)));
}

#[test]
fn a_blank_or_missing_query_highlights_nothing() {
    assert_eq!(snippet_highlight("Hello", ""), None);
    assert_eq!(snippet_highlight("Hello", "   "), None);
    assert_eq!(snippet_highlight("Hello", "xyz"), None);
    assert_eq!(snippet_highlight("", "a"), None);
}

#[test]
fn ranges_follow_the_bytes_of_multibyte_text() {
    assert_eq!(snippet_highlight("\u{c4}BC", "\u{e4}b"), Some((0, 3)));
    assert_eq!(snippet_highlight("caf\u{e9}!", "\u{c9}"), Some((3, 5)));
}

#[test]
fn a_range_that_lowercasing_moved_off_the_text_is_dropped() {
    // U+0130 lowercases to two characters, three bytes instead of two, so the
    // match in the lowercase text ends past the end of the text itself.
    assert_eq!(snippet_highlight("\u{130}a", "a"), None);
}

#[test]
fn every_unicode_white_space_is_trimmed() {
    assert_eq!(snippet_highlight("a b", "\u{3000}b\u{85}"), Some((2, 3)));
    assert_eq!(snippet_highlight("a b", "\t\u{A0}\u{2028}"), None);
    assert_eq!(snippet_highlight("ab", "\u{200B}b"), None);
}

#[test]
fn the_search_pane_is_empty_without_query_or_day() {
    assert!(search_is_empty(" \t", None));
    assert!(!search_is_empty(" \t", Some((2026, 3, 1))));
    assert!(!search_is_empty(" a ", None));
    assert!(search_is_empty("", None));
}

#[test]
fn the_viewer_title_falls_back_to_the_file_name_then_the_word() {
    assert_eq!(viewer_title(Some("Ada".into()), Some("a.jpg".into()), "Image".into()), "Ada");
    assert_eq!(viewer_title(None, Some("a.jpg".into()), "Image".into()), "a.jpg");
    assert_eq!(viewer_title(None, None, "Image".into()), "Image");
}
