//! Searches on concrete ropes.

use rope_find::CaseMatching::{CaseInsensitive, Exact};
use rope_find::{
    compare_cursor_regex, compare_cursor_str, compare_cursor_str_casei, find, find_progress, Cursor,
    FindResult, Rope,
};

/// A text of several leaves that ends in the given one.
fn padded(end: &str) -> String {
    let mut s = String::new();
    for _ in 0..4000 {
        s.push('x');
    }
    s.push_str(end);
    s
}

#[test]
fn find_small() {
    let a = Rope::from("Löwe 老虎 Léopard");
    let mut c = Cursor::new(&a, 0);
    assert_eq!(find(&mut c, Exact, "L", false), Some(0));
    assert_eq!(find(&mut c, Exact, "L", false), Some(13));
    assert_eq!(find(&mut c, Exact, "L", false), None);
    c.set(0);
    assert_eq!(find(&mut c, Exact, "Léopard", false), Some(13));
    assert_eq!(find(&mut c, Exact, "Léopard", false), None);
    c.set(0);
    // Note: these two characters both start with 0xE8 in utf-8
    assert_eq!(find(&mut c, Exact, "老虎", false), Some(6));
    assert_eq!(find(&mut c, Exact, "老虎", false), None);
    c.set(0);
    assert_eq!(find(&mut c, Exact, "虎", false), Some(9));
    assert_eq!(find(&mut c, Exact, "虎", false), None);
    c.set(0);
    assert_eq!(find(&mut c, Exact, "Tiger", false), None);
}

#[test]
fn find_medium() {
    let s = padded("Löwe 老虎 Léopard");
    let a = Rope::from(&s);
    let mut c = Cursor::new(&a, 0);
    assert_eq!(find(&mut c, Exact, "L", false), Some(4000));
    assert_eq!(find(&mut c, Exact, "L", false), Some(4013));
    assert_eq!(find(&mut c, Exact, "L", false), None);
    c.set(0);
    assert_eq!(find(&mut c, Exact, "Léopard", false), Some(4013));
    assert_eq!(find(&mut c, Exact, "Léopard", false), None);
    c.set(0);
    assert_eq!(find(&mut c, Exact, "老虎", false), Some(4006));
    assert_eq!(find(&mut c, Exact, "老虎", false), None);
    c.set(0);
    assert_eq!(find(&mut c, Exact, "虎", false), Some(4009));
    assert_eq!(find(&mut c, Exact, "虎", false), None);
    c.set(0);
    assert_eq!(find(&mut c, Exact, "Tiger", false), None);
}

#[test]
fn find_casei_small() {
    let a = Rope::from("Löwe 老虎 Léopard");
    let mut c = Cursor::new(&a, 0);
    assert_eq!(find(&mut c, CaseInsensitive, "l", false), Some(0));
    assert_eq!(find(&mut c, CaseInsensitive, "l", false), Some(13));
    assert_eq!(find(&mut c, CaseInsensitive, "l", false), None);
    c.set(0);
    assert_eq!(find(&mut c, CaseInsensitive, "léopard", false), Some(13));
    assert_eq!(find(&mut c, CaseInsensitive, "léopard", false), None);
    c.set(0);
    assert_eq!(find(&mut c, CaseInsensitive, "LÉOPARD", false), Some(13));
    assert_eq!(find(&mut c, CaseInsensitive, "LÉOPARD", false), None);
    c.set(0);
    assert_eq!(find(&mut c, CaseInsensitive, "老虎", false), Some(6));
    assert_eq!(find(&mut c, CaseInsensitive, "老虎", false), None);
    c.set(0);
    assert_eq!(find(&mut c, CaseInsensitive, "Tiger", false), None);
}

#[test]
fn find_casei_ascii_nonalpha() {
    let a = Rope::from("![cfg(test)]");
    let mut c = Cursor::new(&a, 0);
    assert_eq!(find(&mut c, CaseInsensitive, "(test)", false), Some(5));
    c.set(0);
    assert_eq!(find(&mut c, CaseInsensitive, "(TEST)", false), Some(5));
}

#[test]
fn find_casei_special() {
    let a = Rope::from("İ");
    let mut c = Cursor::new(&a, 0);
    assert_eq!(find(&mut c, CaseInsensitive, "i̇", false), Some(0));

    let a = Rope::from("i̇");
    let mut c = Cursor::new(&a, 0);
    assert_eq!(find(&mut c, CaseInsensitive, "İ", false), Some(0));

    let a = Rope::from("\u{212A}");
    let mut c = Cursor::new(&a, 0);
    assert_eq!(find(&mut c, CaseInsensitive, "k", false), Some(0));

    let a = Rope::from("k");
    let mut c = Cursor::new(&a, 0);
    assert_eq!(find(&mut c, CaseInsensitive, "\u{212A}", false), Some(0));
}

#[test]
fn find_casei_0xc4() {
    let a = Rope::from("\u{0100}I");
    let mut c = Cursor::new(&a, 0);
    assert_eq!(find(&mut c, CaseInsensitive, "i", false), Some(2));
}

#[test]
fn find_regex_small() {
    let a = Rope::from("Löwe 老虎 Léopard\nSecond line");
    let mut c = Cursor::new(&a, 0);
    assert_eq!(find(&mut c, Exact, "L", true), Some(0));
    assert_eq!(find(&mut c, Exact, "L", true), Some(13));
    assert_eq!(find(&mut c, Exact, "L", true), None);
    c.set(0);
    assert_eq!(find(&mut c, Exact, "Léopard", true), Some(13));
    assert_eq!(find(&mut c, Exact, "Léopard", true), None);
    c.set(0);
    assert_eq!(find(&mut c, Exact, "老虎", true), Some(6));
    assert_eq!(find(&mut c, Exact, "老虎", true), None);
    c.set(0);
    assert_eq!(find(&mut c, Exact, "Tiger", true), None);
    c.set(0);
    assert_eq!(find(&mut c, Exact, ".", true), Some(0));
    assert_eq!(find(&mut c, Exact, "\\s", true), Some(5));
    assert_eq!(find(&mut c, Exact, "\\sLéopard\n.*", true), Some(12));
}

#[test]
fn find_regex_medium() {
    let s = padded("Löwe 老虎 Léopard\nSecond line");
    let a = Rope::from(&s);
    let mut c = Cursor::new(&a, 0);
    assert_eq!(find(&mut c, Exact, "L", true), Some(4000));
    assert_eq!(find(&mut c, Exact, "L", true), Some(4013));
    assert_eq!(find(&mut c, Exact, "L", true), None);
    c.set(0);
    assert_eq!(find(&mut c, Exact, "Léopard", true), Some(4013));
    assert_eq!(find(&mut c, Exact, "Léopard", true), None);
    c.set(0);
    assert_eq!(find(&mut c, Exact, "老虎", true), Some(4006));
    assert_eq!(find(&mut c, Exact, "老虎", true), None);
    c.set(0);
    assert_eq!(find(&mut c, Exact, "Tiger", true), None);
    c.set(0);
    assert_eq!(find(&mut c, Exact, ".", true), Some(0));
    assert_eq!(find(&mut c, Exact, "\\s", true), Some(4005));
    assert_eq!(find(&mut c, Exact, "\\sLéopard\n.*", true), Some(4012));
}

#[test]
fn compare_cursor_str_small() {
    let a = Rope::from("Löwe 老虎 Léopard");
    let mut c = Cursor::new(&a, 0);
    let pat = "Löwe 老虎 Léopard";
    assert!(compare_cursor_str(&mut c, pat).is_some());
    assert_eq!(c.pos(), pat.len());
    c.set(0);
    let pat = "Löwe";
    assert!(compare_cursor_str(&mut c, pat).is_some());
    assert_eq!(c.pos(), pat.len());
    c.set(0);
    // Empty string is valid for compare_cursor_str (but not find)
    let pat = "";
    assert!(compare_cursor_str(&mut c, pat).is_some());
    assert_eq!(c.pos(), pat.len());
    c.set(0);
    assert!(compare_cursor_str(&mut c, "Löwe 老虎 Léopardfoo").is_none());
}

#[test]
fn compare_cursor_str_medium() {
    let s = padded("Löwe 老虎 Léopard");
    let a = Rope::from(&s);
    let mut c = Cursor::new(&a, 0);
    assert!(compare_cursor_str(&mut c, &s).is_some());
    assert_eq!(c.pos(), s.len());
    c.set(2000);
    assert!(compare_cursor_str(&mut c, &s[2000..]).is_some());
    assert_eq!(c.pos(), s.len());
}

#[test]
fn find_leaves_cursor_behind_match() {
    let a = Rope::from("ab ab");
    let mut c = Cursor::new(&a, 1);
    assert_eq!(find(&mut c, Exact, "ab", false), Some(3));
    assert_eq!(c.pos(), 5);
    assert!(c.get_leaf().is_some());
    assert_eq!(find(&mut c, Exact, "ab", false), None);
    assert_eq!(c.pos(), 5);
    assert!(c.get_leaf().is_none());
}

#[test]
fn matches_found_in_turn_do_not_overlap() {
    let a = Rope::from("aaaaa");
    let mut c = Cursor::new(&a, 0);
    assert_eq!(find(&mut c, Exact, "aa", false), Some(0));
    assert_eq!(find(&mut c, Exact, "aa", false), Some(2));
    assert_eq!(find(&mut c, Exact, "aa", false), None);
}

#[test]
fn find_across_leaves() {
    let leaves = vec!["one li".to_string(), "".to_string(), "on, two l".to_string(), "ions".to_string()];
    let a = Rope::from_leaves(leaves);
    let b = Rope::from("one lion, two lions");
    for pat in ["lion", "lions", "two", "s", "e"] {
        let mut c = Cursor::new(&a, 0);
        let mut d = Cursor::new(&b, 0);
        let found = find(&mut c, Exact, pat, false);
        assert_eq!(found, find(&mut d, Exact, pat, false));
        assert_eq!(found, "one lion, two lions".find(pat));
        assert_eq!(c.pos(), d.pos());
    }
    let mut c = Cursor::new(&a, 0);
    assert_eq!(find(&mut c, CaseInsensitive, "LIONS", false), Some(14));
    assert_eq!(c.pos(), 19);
}

#[test]
fn progress_suspends_and_resumes() {
    let a = Rope::from("a a a b");
    let mut c = Cursor::new(&a, 0);
    assert!(matches!(find_progress(&mut c, Exact, "a b", 0, false), FindResult::TryAgain));
    assert_eq!(c.pos(), 0);
    assert!(matches!(find_progress(&mut c, Exact, "a b", 1, false), FindResult::TryAgain));
    assert_eq!(c.pos(), 1);
    assert!(matches!(find_progress(&mut c, Exact, "a b", 1, false), FindResult::TryAgain));
    assert_eq!(c.pos(), 3);
    assert!(matches!(find_progress(&mut c, Exact, "a b", 1, false), FindResult::Found(4)));
    assert_eq!(c.pos(), 7);

    let mut d = Cursor::new(&a, 0);
    assert!(matches!(find_progress(&mut d, Exact, "a b", 3, false), FindResult::Found(4)));
    assert_eq!(d.pos(), 7);
}

#[test]
fn progress_decides_within_the_positions_ahead() {
    let a = Rope::from("aaaa");
    let mut c = Cursor::new(&a, 0);
    assert!(matches!(find_progress(&mut c, Exact, "ab", 6, false), FindResult::NotFound));
    let mut c = Cursor::new(&a, 0);
    assert!(matches!(find_progress(&mut c, Exact, "b", 1, false), FindResult::TryAgain));
    assert!(matches!(find_progress(&mut c, Exact, "b", 1, false), FindResult::NotFound));
    assert!(matches!(find_progress(&mut c, Exact, "b", 1, false), FindResult::NotFound));
}

#[test]
fn find_in_empty_rope() {
    let a = Rope::from("");
    let mut c = Cursor::new(&a, 0);
    assert_eq!(find(&mut c, Exact, "a", false), None);
    c.set(0);
    assert_eq!(find(&mut c, CaseInsensitive, "a", false), None);
    c.set(0);
    assert_eq!(find(&mut c, Exact, "a*", true), Some(0));
    assert_eq!(find(&mut c, Exact, "a", true), None);
    assert_eq!(find(&mut c, Exact, "a*", true), None);
}

#[test]
fn find_casei_capital_outside_ascii() {
    let a = Rope::from("ein Éclair");
    let mut c = Cursor::new(&a, 0);
    assert_eq!(find(&mut c, CaseInsensitive, "é", false), Some(4));
    c.set(0);
    assert_eq!(find(&mut c, CaseInsensitive, "É", false), Some(4));
    assert_eq!(c.pos(), 6);
    c.set(0);
    assert_eq!(find(&mut c, CaseInsensitive, "ÉCLAIR", false), Some(4));
    assert_eq!(c.pos(), 11);
    c.set(0);
    assert_eq!(find(&mut c, Exact, "é", false), None);
}

#[test]
fn find_casei_counts_the_last_character_whole() {
    // The lowercase form of U+0130 is two characters long.
    let a = Rope::from("xİx");
    let mut c = Cursor::new(&a, 0);
    assert_eq!(find(&mut c, CaseInsensitive, "i", false), Some(1));
    assert_eq!(c.pos(), 3);
}

#[test]
fn find_casei_final_sigma() {
    let a = Rope::from("ΑΣ");
    let mut c = Cursor::new(&a, 0);
    assert_eq!(find(&mut c, Exact, "ΑΣ", false), Some(0));
    c.set(0);
    assert_eq!(find(&mut c, CaseInsensitive, "ασ", false), Some(0));
    c.set(0);
    // The pattern ends in a final sigma, which no capital becomes on its own.
    assert_eq!(find(&mut c, CaseInsensitive, "ΑΣ", false), None);
}

#[test]
fn find_casei_ascii_ignores_case() {
    let a = Rope::from("Make it so, MAKE IT SO, mAKE IT sO!");
    for pat in ["make it so", "MAKE IT SO", "mAkE It sO"] {
        let mut c = Cursor::new(&a, 0);
        assert_eq!(find(&mut c, CaseInsensitive, pat, false), Some(0));
        assert_eq!(find(&mut c, CaseInsensitive, pat, false), Some(12));
        assert_eq!(find(&mut c, CaseInsensitive, pat, false), Some(24));
        assert_eq!(find(&mut c, CaseInsensitive, pat, false), None);
    }
    let mut c = Cursor::new(&a, 0);
    assert_eq!(find(&mut c, CaseInsensitive, "IT", false), Some(5));
    assert_eq!(find(&mut c, CaseInsensitive, "K", false), Some(14));
    assert_eq!(find(&mut c, CaseInsensitive, "!", false), Some(34));
    assert_eq!(c.pos(), 35);
}

#[test]
fn find_regex_ignores_case_on_request() {
    let a = Rope::from("one Two");
    let mut c = Cursor::new(&a, 0);
    assert_eq!(find(&mut c, Exact, "t[a-z]o", true), None);
    c.set(0);
    assert_eq!(find(&mut c, CaseInsensitive, "t[a-z]o", true), Some(4));
    assert_eq!(c.pos(), 7);
}

#[test]
fn find_regex_refuses_bad_and_large_expressions() {
    let a = Rope::from("((((( aaaaa");
    let mut c = Cursor::new(&a, 0);
    assert_eq!(find(&mut c, Exact, "(", true), None);
    c.set(0);
    assert_eq!(find(&mut c, Exact, "\\w{50}|a", true), None);
    c.set(0);
    assert_eq!(find(&mut c, Exact, "a", true), Some(6));
}

#[test]
fn find_regex_empty_matches_at_cursor() {
    let a = Rope::from("abc");
    let mut c = Cursor::new(&a, 2);
    assert_eq!(find(&mut c, Exact, "", true), Some(2));
    assert_eq!(find(&mut c, Exact, "", true), Some(2));
    assert_eq!(c.pos(), 2);
}

#[test]
fn find_regex_reads_further_leaves_for_line_breaks_only() {
    let leaves = vec!["ab".to_string(), "c\nd".to_string()];
    let a = Rope::from_leaves(leaves);
    let mut c = Cursor::new(&a, 0);
    assert_eq!(find(&mut c, Exact, "bc", true), None);
    c.set(0);
    assert_eq!(find(&mut c, Exact, "bc\n", true), Some(1));
    assert_eq!(c.pos(), 4);
}

#[test]
fn compare_cursor_str_failure_leaves_cursor_in_leaf() {
    let leaves = vec!["abc".to_string(), "def".to_string()];
    let a = Rope::from_leaves(leaves);
    let mut c = Cursor::new(&a, 1);
    assert_eq!(compare_cursor_str(&mut c, "bx"), None);
    assert_eq!(c.pos(), 1);
    assert_eq!(compare_cursor_str(&mut c, "bcdx"), None);
    assert_eq!(c.pos(), 3);
    c.set(1);
    assert_eq!(compare_cursor_str(&mut c, "bcdefg"), None);
    assert_eq!(c.pos(), 6);
    assert!(c.get_leaf().is_none());
    c.set(2);
    assert_eq!(compare_cursor_str(&mut c, "cde"), Some(2));
    assert_eq!(c.pos(), 5);
}

#[test]
fn compare_cursor_str_inside_a_character() {
    let a = Rope::from("ö");
    let mut c = Cursor::new(&a, 1);
    assert!(!c.is_boundary());
    assert_eq!(compare_cursor_str(&mut c, "ö"), None);
    assert_eq!(c.pos(), 1);
    assert_eq!(compare_cursor_str(&mut c, ""), Some(1));
}

#[test]
fn find_regex_anchors_hold_where_the_text_begins() {
    let a = Rope::from("ab");
    let mut c = Cursor::new(&a, 0);
    assert!(matches!(
        find_progress(&mut c, Exact, "^b", usize::MAX, true),
        FindResult::NotFound
    ));
    c.set(0);
    assert_eq!(find(&mut c, Exact, "^b", true), None);
    c.set(0);
    assert_eq!(find(&mut c, Exact, "\\bb", true), None);
    c.set(0);
    assert_eq!(find(&mut c, Exact, "^a", true), Some(0));
    c.set(0);
    assert_eq!(find(&mut c, Exact, "^b|\\n", true), None);
}

#[test]
fn find_regex_begins_anew_at_each_leaf() {
    let a = Rope::from_leaves(vec!["xa".to_string(), "bx".to_string(), "ab".to_string()]);
    let mut c = Cursor::new(&a, 0);
    assert!(matches!(find_progress(&mut c, Exact, "^a", 1, true), FindResult::TryAgain));
    assert_eq!(c.pos(), 2);
    assert!(matches!(find_progress(&mut c, Exact, "^a", 1, true), FindResult::TryAgain));
    assert_eq!(c.pos(), 4);
    assert!(matches!(find_progress(&mut c, Exact, "^a", 1, true), FindResult::Found(4)));
    assert_eq!(c.pos(), 5);
    c.set(0);
    // Tested on the whole text at once.
    assert!(matches!(find_progress(&mut c, Exact, "^a\\s*", 1, true), FindResult::TryAgain));
    assert!(c.get_leaf().is_none());
    c.set(0);
    assert_eq!(find(&mut c, Exact, "xab\\s*x", true), Some(0));
    assert_eq!(c.pos(), 4);
}

#[test]
fn progress_without_steps_asks_nothing_of_the_cursor() {
    let a = Rope::from("ö");
    let mut c = Cursor::new(&a, 1);
    assert!(matches!(find_progress(&mut c, Exact, "ö", 0, false), FindResult::TryAgain));
    assert_eq!(c.pos(), 1);
}

#[test]
fn compare_casei_normalizes_both_sides() {
    let a = Rope::from("ab");
    for pat in ["ab", "AB", "aB", "Ab"] {
        let mut c = Cursor::new(&a, 0);
        assert_eq!(compare_cursor_str_casei(&mut c, pat), Some(0));
        assert_eq!(c.pos(), 2);
    }
    let a = Rope::from("ABC");
    let mut c = Cursor::new(&a, 0);
    assert_eq!(compare_cursor_str_casei(&mut c, "AX"), None);
    assert_eq!(c.pos(), 2);
    c.set(1);
    assert_eq!(compare_cursor_str_casei(&mut c, "bcd"), None);
    assert_eq!(c.pos(), 3);
    assert!(c.get_leaf().is_none());
}

#[test]
fn compare_casei_succeeds_where_a_lowercase_pattern_occurs() {
    let a = Rope::from("die löwin 老虎");
    for pat in ["löwin", "löwin 老", "l"] {
        let mut c = Cursor::new(&a, 4);
        let mut d = Cursor::new(&a, 4);
        assert_eq!(compare_cursor_str(&mut c, pat), Some(4));
        assert_eq!(compare_cursor_str_casei(&mut d, pat), Some(4));
        assert_eq!(c.pos(), d.pos());
    }
}

#[test]
fn compare_regex_without_a_pattern_to_match() {
    let a = Rope::from("aöb");
    for cm in [Exact, CaseInsensitive] {
        // Inside a character, and run off the end.
        let mut c = Cursor::new(&a, 2);
        assert_eq!(compare_cursor_regex(&mut c, "", cm), Some(2));
        assert_eq!(c.pos(), 2);
        assert!(c.next_leaf().is_none());
        assert_eq!(compare_cursor_regex(&mut c, "", cm), Some(4));
        assert!(c.get_leaf().is_none());
        assert_eq!(compare_cursor_regex(&mut c, "x*", cm), None);
        assert_eq!(c.pos(), 4);
        assert!(c.get_leaf().is_none());
    }
}

#[test]
fn compare_regex_that_does_not_compile_keeps_the_cursor() {
    let a = Rope::from_leaves(vec!["ab".to_string(), "cd".to_string()]);
    for pat in ["(", "(\n", "\\w{50}", "\\w{50}\\n"] {
        let mut c = Cursor::new(&a, 1);
        assert_eq!(compare_cursor_regex(&mut c, pat, Exact), None);
        assert_eq!(c.pos(), 1);
        assert!(c.get_leaf().is_some());
    }
    let mut c = Cursor::new(&a, 1);
    assert_eq!(compare_cursor_regex(&mut c, "x", Exact), None);
    assert_eq!(c.pos(), 2);
    c.set(1);
    assert_eq!(compare_cursor_regex(&mut c, "D", CaseInsensitive), None);
    assert_eq!(compare_cursor_regex(&mut c, "D", CaseInsensitive), Some(3));
    assert_eq!(c.pos(), 4);
}

#[test]
fn find_regex_negated_whitespace_stays_in_its_leaf() {
    let a = Rope::from_leaves(vec!["ab".to_string(), "cd".to_string()]);
    let mut c = Cursor::new(&a, 0);
    assert_eq!(find(&mut c, Exact, "[^\\s]+", true), Some(0));
    assert_eq!(c.pos(), 2);
    c.set(0);
    assert_eq!(find(&mut c, Exact, "b[^\\s]", true), None);
    c.set(0);
    assert_eq!(find(&mut c, Exact, "b[\\s\\S]", true), Some(1));
    assert_eq!(c.pos(), 3);
}

#[test]
fn compare_regex_that_does_not_compile_inside_a_character() {
    let a = Rope::from("ö");
    for pat in ["(", "\\w{50}"] {
        let mut c = Cursor::new(&a, 1);
        assert_eq!(compare_cursor_regex(&mut c, pat, Exact), None);
        assert_eq!(c.pos(), 1);
        assert!(c.get_leaf().is_some());
    }
}
