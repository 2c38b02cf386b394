//! Ropes, cursors, scans and the steps of a search on their own.

use rope_find::find::{advance, find_core, find_progress_iter, place_regex_match, Prepared};
use rope_find::regex_search::is_multiline_regex;
use rope_find::rope::MAX_LEAF;
use rope_find::scan::{scan_lowercase, scanner_for_folded, Scanner};
use rope_find::text::lead_width;
use rope_find::{CaseMatching, Cursor, FindResult, Rope};

#[test]
fn cursor_walks_the_characters() {
    let text = "aö老\u{1f405}z";
    let a = Rope::from(text);
    assert_eq!(a.len(), 11);
    let mut c = Cursor::new(&a, 0);
    assert_eq!(c.total_len(), 11);
    for (i, ch) in text.char_indices() {
        assert_eq!(c.pos(), i);
        assert!(c.is_boundary());
        assert_eq!(c.next_codepoint(), Some(ch));
    }
    assert_eq!(c.pos(), 11);
    assert!(c.get_leaf().is_some());
    assert_eq!(c.next_codepoint(), None);
    assert!(c.get_leaf().is_none());
    c.set(1);
    assert_eq!(c.next(), Some(3));
    assert_eq!(c.next(), Some(6));
    assert_eq!(c.next(), Some(10));
    assert_eq!(c.next(), Some(11));
    assert_eq!(c.next(), None);
    c.set(4);
    assert!(!c.is_boundary());
}

#[test]
fn cursor_walks_the_leaves() {
    let a = Rope::from_leaves(vec!["ab".to_string(), "".to_string(), "cde".to_string()]);
    let mut c = Cursor::new(&a, 1);
    let (leaf, offset) = c.get_leaf().unwrap();
    assert_eq!((leaf.as_str(), offset), ("ab", 1));
    let (leaf, offset) = c.next_leaf().unwrap();
    assert_eq!((leaf.as_str(), offset), ("cde", 0));
    assert_eq!(c.pos(), 2);
    assert!(c.next_leaf().is_none());
    assert_eq!(c.pos(), 5);
    assert!(c.next_leaf().is_none());
    c.set(2);
    let (leaf, offset) = c.get_leaf().unwrap();
    assert_eq!((leaf.as_str(), offset), ("cde", 0));
    c.set(1);
    assert_eq!(c.next(), Some(2));
    let (leaf, offset) = c.get_leaf().unwrap();
    assert_eq!((leaf.as_str(), offset), ("cde", 0));
    c.set(5);
    let (leaf, offset) = c.get_leaf().unwrap();
    assert_eq!((leaf.as_str(), offset), ("cde", 3));
}

#[test]
fn long_text_is_cut_at_characters() {
    let mut text = "x".repeat(MAX_LEAF - 1);
    text.push_str("老虎");
    let a = Rope::from(&text);
    let mut c = Cursor::new(&a, 0);
    assert_eq!(c.get_leaf().unwrap().0.len(), MAX_LEAF - 1);
    assert_eq!(c.next_leaf().unwrap().0.as_str(), "老虎");
    assert!(c.next_leaf().is_none());
}

#[test]
fn scans_find_the_first_place() {
    assert_eq!(Scanner::Anywhere.scan(""), Some(0));
    assert_eq!(Scanner::Byte(0x6f).scan("hello world"), Some(4));
    assert_eq!(Scanner::Byte(0x7a).scan("hello world"), None);
    assert_eq!(Scanner::Byte2(0x77, 0x6c).scan("hello world"), Some(2));
    assert_eq!(Scanner::Byte2(0x78, 0x7a).scan("hello world"), None);
    assert_eq!(Scanner::Byte3(0x7a, 0x72, 0x77).scan("hello world"), Some(6));
    assert_eq!(Scanner::Byte3(0x78, 0x79, 0x7a).scan("hello world"), None);
    assert_eq!(Scanner::Lowercase('é').scan("xÉé"), Some(1));
}

#[test]
fn scan_lowercase_compares_in_lowercase() {
    assert_eq!(scan_lowercase('é', "Léopard"), Some(1));
    assert_eq!(scan_lowercase('é', "LÉOPARD"), Some(1));
    assert_eq!(scan_lowercase('É', "LÉOPARD"), None);
    assert_eq!(scan_lowercase('i', "aİ"), Some(1));
    assert_eq!(scan_lowercase('老', "虎老"), Some(3));
    assert_eq!(scan_lowercase('x', ""), None);
}

#[test]
fn folded_patterns_choose_their_scan() {
    assert!(matches!(scanner_for_folded("ice"), Scanner::Byte3(0x69, 0x49, 0xc4)));
    assert!(matches!(scanner_for_folded("kite"), Scanner::Byte3(0x6b, 0x4b, 0xe2)));
    assert!(matches!(scanner_for_folded("a"), Scanner::Byte2(0x61, 0x41)));
    assert!(matches!(scanner_for_folded("z"), Scanner::Byte2(0x7a, 0x5a)));
    assert!(matches!(scanner_for_folded("(a)"), Scanner::Byte(0x28)));
    assert!(matches!(scanner_for_folded("éa"), Scanner::Lowercase('é')));
}

#[test]
fn lowercase_table_has_two_ways_into_ascii() {
    let mut sources: Vec<(char, char)> = Vec::new();
    for u in 0u32..0x110000 {
        if let Some(c) = char::from_u32(u) {
            let lower: Vec<char> = c.to_lowercase().collect();
            assert!(!lower.is_empty());
            if c.is_ascii() {
                assert_eq!(lower, vec![c.to_ascii_lowercase()]);
            } else if lower[0].is_ascii() {
                sources.push((c, lower[0]));
            }
            if c != '\u{3a3}' {
                let alone: Vec<char> = c.to_string().to_lowercase().chars().collect();
                assert_eq!(alone, lower);
            }
        }
    }
    assert_eq!(sources, vec![('\u{130}', 'i'), ('\u{212a}', 'k')]);
    assert_eq!("ΣΑΣ".to_lowercase(), "σας");
    assert_eq!("löwin 老虎 σας ασ".to_lowercase(), "löwin 老虎 σας ασ");
}

#[test]
fn advance_goes_along_the_pattern() {
    let folded: Vec<char> = "abc".chars().collect();
    assert_eq!(advance(&folded, 0, &vec!['a']), Some(1));
    assert_eq!(advance(&folded, 1, &vec!['b', 'c']), Some(3));
    assert_eq!(advance(&folded, 2, &vec!['c', 'x']), Some(3));
    assert_eq!(advance(&folded, 0, &vec!['a', 'x']), None);
    assert_eq!(advance(&folded, 3, &vec!['x']), Some(3));
}

#[test]
fn regex_match_is_placed_behind_the_origin() {
    let a = Rope::from("hello world");
    let mut c = Cursor::new(&a, 0);
    assert_eq!(place_regex_match(&mut c, 6, Some((1, 3))), Some(7));
    assert_eq!(c.pos(), 9);
    assert_eq!(place_regex_match(&mut c, 6, None), None);
    assert_eq!(c.pos(), 9);
}

#[test]
fn line_breaks_make_an_expression_multiline() {
    assert!(is_multiline_regex("a\nb"));
    assert!(is_multiline_regex("\r"));
    assert!(is_multiline_regex("x[[:space:]]*"));
    assert!(is_multiline_regex("\\s"));
    assert!(is_multiline_regex("\\n"));
    assert!(is_multiline_regex("a\\nb"));
    assert!(is_multiline_regex("a\\r"));
    assert!(!is_multiline_regex("\\w"));
    assert!(!is_multiline_regex("nrs"));
    assert!(!is_multiline_regex("a\\"));
}

#[test]
fn escaped_backslash_does_not_escape() {
    assert!(!is_multiline_regex("\\\\n"));
    assert!(is_multiline_regex("\\\\\\n"));
    assert!(!is_multiline_regex("\\\\s+"));
}

#[test]
fn classes_decide_which_escapes_count() {
    assert!(is_multiline_regex("[\\s\\S]*"));
    assert!(is_multiline_regex("[a-z\\n]"));
    assert!(!is_multiline_regex("[^\\s]"));
    assert!(!is_multiline_regex("x[^a\\n\\r]*y"));
    assert!(is_multiline_regex("[^a]\\n"));
    assert!(is_multiline_regex("[^\\s]\\s"));
    assert!(is_multiline_regex("\\[^\\s"));
    // A bracket that comes first in a class does not close it.
    assert!(is_multiline_regex("[]\\s]"));
    assert!(!is_multiline_regex("[^]\\s]"));
    assert!(!is_multiline_regex("[^\\]\\s]"));
    assert!(is_multiline_regex("[^]\\s]\\s"));
    // Classes in classes.
    assert!(!is_multiline_regex("[a[^\\s]]"));
    assert!(!is_multiline_regex("[^a[\\s]]"));
    assert!(is_multiline_regex("[[^a]\\s]"));
    assert!(!is_multiline_regex("[^[:alpha:]\\s]"));
    // Classes that take something away.
    assert!(!is_multiline_regex("[\\w--\\s]"));
    assert!(!is_multiline_regex("[\\s&&[^\\n\\r]]"));
    assert!(is_multiline_regex("[\\w--\\s]|\\n"));
    assert!(is_multiline_regex("a--[\\s]"));
}

#[test]
fn line_breaks_count_wherever_they_stand() {
    assert!(is_multiline_regex("[^\n]"));
    assert!(is_multiline_regex("[^[[:space:]]]"));
    assert!(!is_multiline_regex("[[:space:]"));
    assert!(!is_multiline_regex(""));
}

#[test]
fn one_step_tests_one_candidate() {
    let a = Rope::from("xay");
    let prepared = Prepared::new(CaseMatching::Exact, "ab", false);
    let mut c = Cursor::new(&a, 0);
    assert!(matches!(find_core(&mut c, &prepared), FindResult::TryAgain));
    assert_eq!(c.pos(), 2);
    assert!(matches!(find_core(&mut c, &prepared), FindResult::TryAgain));
    assert_eq!(c.pos(), 3);
    assert!(matches!(find_core(&mut c, &prepared), FindResult::NotFound));
    c.set(0);
    assert!(matches!(find_progress_iter(&mut c, &prepared, 3), FindResult::NotFound));
    let prepared = Prepared::new(CaseMatching::CaseInsensitive, "AY", false);
    c.set(0);
    assert!(matches!(find_progress_iter(&mut c, &prepared, 1), FindResult::Found(1)));
    assert_eq!(c.pos(), 3);
}

#[test]
fn lead_bytes_tell_the_width() {
    for (c, n) in [('a', 1), ('ö', 2), ('老', 3), ('\u{1f405}', 4)] {
        assert_eq!(lead_width(c.to_string().as_bytes()[0]), n);
    }
}
