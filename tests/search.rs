use lumen::diff_algo::compute_side_by_side;
use lumen::overlay::{apply_search_highlight, SpanKind};
use lumen::search::{MatchPanel, SearchMode, SearchState};

#[test]
fn empty_query_has_no_match() {
    let lines = compute_side_by_side("abc\n", "abc\n", 4);
    let mut s = SearchState::new();
    s.start_search();
    s.update_matches(&lines);
    assert_eq!(s.match_count(), 0);
    assert_eq!(s.current_match_index(), None);
    assert!(s.is_active());
    assert!(!s.has_query());
}

#[test]
fn search_ignores_case_and_orders_matches() {
    let lines = compute_side_by_side("Foo bar\nzzz\n", "foo\nFOO foo\n", 4);
    let mut s = SearchState::new();
    s.start_search();
    for c in "fOo".chars() {
        s.push_char(c, &lines);
    }
    assert_eq!(s.query(), "fOo");
    // row 0: old "Foo bar" at 0, new "foo" at 0; row 1: new "FOO foo" at 0 and 4
    assert_eq!(s.match_count(), 4);
    let m0 = s.current_match().unwrap();
    assert_eq!((m0.line_index, m0.panel, m0.start, m0.end), (0, MatchPanel::Old, 0, 3));
    assert_eq!(s.get_matches_for_line(0, MatchPanel::Old), vec![(0, 3, true)]);
    assert_eq!(s.get_matches_for_line(0, MatchPanel::New), vec![(0, 3, false)]);
    assert_eq!(s.get_matches_for_line(1, MatchPanel::New), vec![(0, 3, false), (4, 7, false)]);
    s.confirm();
    assert_eq!(s.mode(), SearchMode::Inactive);
    assert_eq!(s.match_count(), 4);
}

#[test]
fn navigation_wraps_both_ways() {
    let lines = compute_side_by_side("a\na\na\n", "", 4);
    let mut s = SearchState::new();
    s.start_search();
    s.push_char('A', &lines);
    assert_eq!(s.match_count(), 3);
    assert_eq!(s.current_match_index(), Some(0));
    s.prev_match();
    assert_eq!(s.current_match_index(), Some(2));
    s.next_match();
    assert_eq!(s.current_match_index(), Some(0));
    s.next_match();
    s.next_match();
    assert_eq!(s.current_match_index(), Some(2));
    s.next_match();
    assert_eq!(s.current_match_index(), Some(0));
}

#[test]
fn removing_characters_searches_again() {
    let lines = compute_side_by_side("ab\nac\n", "ab\nac\n", 4);
    let mut s = SearchState::new();
    s.start_search();
    s.push_char('a', &lines);
    s.push_char('b', &lines);
    assert_eq!(s.match_count(), 2);
    s.pop_char(&lines);
    assert_eq!(s.query(), "a");
    assert_eq!(s.match_count(), 4);
    s.clear();
    assert_eq!(s.match_count(), 0);
}

#[test]
fn highlight_overlays_syntax_pieces() {
    let base = vec![("let".to_string(), Some(1)), (" hello world".to_string(), None)];
    let out = apply_search_highlight(&base, &[(4, 9, true), (10, 12, false)]);
    let expected = vec![
        ("let".to_string(), SpanKind::Base(Some(1))),
        (" ".to_string(), SpanKind::Base(None)),
        ("hello".to_string(), SpanKind::CurrentMatch),
        (" ".to_string(), SpanKind::Base(None)),
        ("wo".to_string(), SpanKind::Match),
        ("rld".to_string(), SpanKind::Base(None)),
    ];
    assert_eq!(out, expected);
    let plain = apply_search_highlight(&base, &[]);
    assert_eq!(plain.len(), 2);
}

#[test]
fn folded_texts_match_character_by_character() {
    let text: Vec<String> = ["a", "b", "i\u{307}", "c"].iter().map(|s| s.to_string()).collect();
    let query: Vec<String> = ["i\u{307}", "c"].iter().map(|s| s.to_string()).collect();
    assert!(lumen::search::occurs_in_folded(&text, &query, 2));
    assert!(!lumen::search::occurs_in_folded(&text, &query, 1));
    assert!(!lumen::search::occurs_in_folded(&text, &query, 3));
    assert!(!lumen::search::occurs_in_folded(&text, &Vec::new(), 0));
}

#[test]
fn dotted_capital_i_matches_its_lowercase_form() {
    let lines = compute_side_by_side("\u{130}x\n", "", 4);
    let mut s = SearchState::new();
    s.start_search();
    s.push_char('i', &lines);
    assert_eq!(s.match_count(), 0);
    s.pop_char(&lines);
    s.push_char('\u{130}', &lines);
    assert_eq!(s.match_count(), 1);
    s.pop_char(&lines);
    s.push_char('X', &lines);
    assert_eq!(s.get_matches_for_line(0, MatchPanel::Old), vec![(1, 2, true)]);
}

#[test]
fn no_range_keeps_fragments_as_they_are() {
    let base = vec![("a".to_string(), Some(2)), (String::new(), None), ("b c".to_string(), None)];
    let out = apply_search_highlight(&base, &[]);
    let expected = vec![
        ("a".to_string(), SpanKind::Base(Some(2))),
        (String::new(), SpanKind::Base(None)),
        ("b c".to_string(), SpanKind::Base(None)),
    ];
    assert_eq!(out, expected);
}
