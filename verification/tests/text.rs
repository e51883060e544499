//! Operations on texts.

use ratex::text::{
    contains, contains_char, decimal_text, ends_with, is_blank, is_in_order,
    is_white_space, joined, lowercase, same, slice, sort_texts, split, starts_with, trimmed,
    trimmed_end, trimmed_start,
};

#[test]
fn white_space_is_that_of_unicode() {
    for c in '\0'..=char::MAX {
        assert_eq!(is_white_space(c), c.is_whitespace(), "{c:?}");
    }
}

#[test]
fn trimming_is_that_of_the_standard_library() {
    for s in ["", " ", "a", " a", "a\u{3000}", "\n\t a b \u{85}", "\u{200b} x"] {
        assert_eq!(trimmed(s), s.trim());
        assert_eq!(trimmed_start(s), s.trim_start());
        assert_eq!(trimmed_end(s), s.trim_end());
        assert_eq!(is_blank(s), s.trim().is_empty());
    }
}

#[test]
fn searching_is_that_of_the_standard_library() {
    let texts = ["", "a", "ab", "ba", "aab", "éa", "abab"];
    for s in texts {
        for p in texts {
            assert_eq!(starts_with(s, p), s.starts_with(p));
            assert_eq!(ends_with(s, p), s.ends_with(p));
            assert_eq!(contains(s, p), s.contains(p));
            assert_eq!(same(s, p), s == p);
            assert_eq!(is_in_order(s, p), s <= p);
        }
        assert_eq!(contains_char(s, 'é'), s.contains('é'));
    }
    assert!(is_in_order("\u{ffff}", "\u{10000}"));
}

#[test]
fn splitting_and_joining_undo_each_other() {
    for s in ["", ",", "a", "a,b", ",a,,b,", "é,译"] {
        let pieces = split(s, ',');
        assert_eq!(pieces, s.split(',').collect::<Vec<_>>());
        assert_eq!(joined(&pieces, ","), s);
    }
    assert_eq!(joined(&vec![], ","), "");
}

#[test]
fn numbers_are_written_in_decimal() {
    for n in [0, 9, 10, 99, 100, 12345, u64::MAX] {
        assert_eq!(decimal_text(n), n.to_string());
    }
}

#[test]
fn pieces_are_cut_by_byte_offsets() {
    assert_eq!(slice("aé译b", 1, 6), "é译");
    assert_eq!(slice("aé译b", 0, 7), "aé译b");
    assert_eq!(slice("aé译b", 3, 3), "");
}

#[test]
fn letters_get_lower_case() {
    assert_eq!(lowercase("AZaz[É"), ['a', 'z', 'a', 'z', '[', 'É']);
}

#[test]
fn texts_are_sorted() {
    let list: Vec<String> = ["b", "", "a", "B", "é", "a", "ab"].iter().map(|s| s.to_string()).collect();
    let mut expected = list.clone();
    expected.sort();
    assert_eq!(sort_texts(list), expected);
}
