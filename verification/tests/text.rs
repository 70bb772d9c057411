//! Working on texts and ordered lists.

use ochna::ordered::{dedup_by, insert_in_order, position_of, reversed, sort_by, ByText};
use ochna::text::{
    ascii_lowercase, count, cut_first, cut_last, has, join, last_part, leading_word, lines_of,
    number, parse_signed, parse_unsigned, parts_of, squeezed, trimmed, trimmed_end, words_of,
};

fn texts(items: &[&str]) -> Vec<String> {
    items.iter().map(|item| item.to_string()).collect()
}

#[test]
fn lists_are_sorted_and_freed_of_repeats() {
    let items = texts(&["b", "a", "c", "a", "B", "\u{e9}"]);
    let mut standard = items.clone();
    let sorted = sort_by(items, &ByText);
    standard.sort();
    assert_eq!(sorted, standard);
    standard.dedup();
    let mut kept = dedup_by(sorted, &ByText);
    assert_eq!(kept, standard);
    insert_in_order(&mut kept, "bb".to_string(), &ByText);
    standard.push("bb".to_string());
    standard.sort();
    assert_eq!(kept, standard);
    standard.reverse();
    assert_eq!(reversed(kept), standard);
}

#[test]
fn texts_are_cut_at_separators() {
    assert_eq!(
        cut_first("a::b::c", "::"),
        Some(("a".to_string(), "b::c".to_string()))
    );
    assert_eq!(
        cut_last("a::b::c", "::"),
        Some(("a::b".to_string(), "c".to_string()))
    );
    assert_eq!(cut_last("abc", "::"), None);
    assert_eq!(last_part("a::b", "::"), "b");
    assert_eq!(parts_of("a,,b", ","), texts(&["a", "", "b"]));
    assert_eq!(join(&texts(&["a", "b"]), "-"), "a-b");
    assert!(has("abc", "bc"));
    assert!(!has("abc", "cb"));
}

#[test]
fn lines_and_words_are_split_as_the_standard_library_splits_them() {
    for text in ["", "a", "a\n", "a\r\nb", "\n\n", " a  b\t\u{a0}c ", "a\rb\n"] {
        let lines: Vec<String> = text.lines().map(|line| line.to_string()).collect();
        assert_eq!(lines_of(text), lines);
        let words: Vec<String> = text.split_whitespace().map(|word| word.to_string()).collect();
        assert_eq!(words_of(text), words);
        assert_eq!(leading_word(text), words.first().cloned());
        assert_eq!(trimmed(text), text.trim());
        assert_eq!(trimmed_end(text), text.trim_end());
    }
    assert_eq!(ascii_lowercase("A\u{c9}z"), "a\u{c9}z");
    assert_eq!(squeezed(" a  b "), "ab");
}

#[test]
fn numbers_are_written_and_read() {
    for n in [0, 7, -1, 42, i64::MAX, i64::MIN] {
        assert_eq!(number(n), n.to_string());
        assert_eq!(parse_signed(&n.to_string()), Some(n));
    }
    assert_eq!(count(1200), "1200");
    for text in ["", "+", "-", "+5", "007", "18446744073709551616", "1x", "-3"] {
        assert_eq!(parse_unsigned(text), text.parse::<u64>().ok(), "{text}");
        assert_eq!(parse_signed(text), text.parse::<i64>().ok(), "{text}");
    }
}

#[test]
fn texts_are_found_among_ascending_ones() {
    let items = texts(&["a", "ab", "b", "d"]);
    for (at, item) in items.iter().enumerate() {
        assert_eq!(position_of(&items, item), Some(at));
    }
    for missing in ["", "aa", "c", "e"] {
        assert_eq!(position_of(&items, missing), None);
    }
    assert_eq!(position_of(&vec![], "a"), None);
}
