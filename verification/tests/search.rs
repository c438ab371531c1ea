use twrite_core::buffer::EditorBuffer;
use twrite_core::error::EditorError;
use std::ops::Range;
use twrite_core::coordinates::Point;
use twrite_core::search::{
    collect_replacements, compile_query, find_matches, find_next, find_prev, replace_all_query,
    replace_one_query, SearchQuery, SearchState,
};

#[test]
fn literal_find_returns_ascending_byte_ranges() {
    let buffer = EditorBuffer::new("hello world hello");
    let matches = find_matches(&buffer, &SearchQuery::literal("hello")).unwrap();
    assert_eq!(matches, vec![0..5, 12..17]);
}

#[test]
fn literal_is_case_sensitive_by_default() {
    let buffer = EditorBuffer::new("Hello hello");
    let matches = find_matches(&buffer, &SearchQuery::literal("hello")).unwrap();
    assert_eq!(matches, vec![6..11]);
}

#[test]
fn case_insensitive_matches_all_cases() {
    let buffer = EditorBuffer::new("Hello HELLO hello");
    let query = SearchQuery::new("hello", false, false, false);
    let matches = find_matches(&buffer, &query).unwrap();
    assert_eq!(matches, vec![0..5, 6..11, 12..17]);
}

#[test]
fn regex_mode_matches_pattern_class() {
    let buffer = EditorBuffer::new("hello hallo hxllo");
    let query = SearchQuery::new("h.llo", true, false, true);
    let matches = find_matches(&buffer, &query).unwrap();
    assert_eq!(matches, vec![0..5, 6..11, 12..17]);
}

#[test]
fn literal_mode_does_not_treat_dot_as_wildcard() {
    let buffer = EditorBuffer::new("h.llo hello");
    let matches = find_matches(&buffer, &SearchQuery::literal("h.llo")).unwrap();
    assert_eq!(matches, vec![0..5]);
}

#[test]
fn whole_word_skips_substring_matches() {
    let buffer = EditorBuffer::new("foo foobar foo");
    let query = SearchQuery::new("foo", true, true, false);
    let matches = find_matches(&buffer, &query).unwrap();
    assert_eq!(matches, vec![0..3, 11..14]);
}

#[test]
fn empty_pattern_is_an_error() {
    let buffer = EditorBuffer::new("hello");
    let err = find_matches(&buffer, &SearchQuery::literal("")).unwrap_err();
    assert!(matches!(err, EditorError::EmptySearchPattern));
}

#[test]
fn invalid_regex_is_an_error() {
    let buffer = EditorBuffer::new("hello");
    let query = SearchQuery::new("(", true, false, true);
    let err = find_matches(&buffer, &query).unwrap_err();
    assert!(matches!(err, EditorError::InvalidRegex { .. }));
}

#[test]
fn no_match_returns_empty_vec() {
    let buffer = EditorBuffer::new("hello world");
    let matches = find_matches(&buffer, &SearchQuery::literal("xyz")).unwrap();
    assert!(matches.is_empty());
}

#[test]
fn unicode_matches_land_on_char_boundaries() {
    let buffer = EditorBuffer::new("héllo héllo");
    let matches = find_matches(&buffer, &SearchQuery::literal("héllo")).unwrap();
    assert_eq!(matches, vec![0..6, 7..13]);
    for m in &matches {
        assert!(buffer.is_char_boundary(m.start));
        assert!(buffer.is_char_boundary(m.end));
    }
}

#[test]
fn find_next_advances_and_wraps() {
    let buffer = EditorBuffer::new("aa aa aa");
    let query = SearchQuery::literal("aa");
    assert_eq!(find_next(&buffer, &query, 0, true).unwrap(), Some(0..2));
    assert_eq!(find_next(&buffer, &query, 1, true).unwrap(), Some(3..5));
    assert_eq!(find_next(&buffer, &query, 7, true).unwrap(), Some(0..2));
    assert_eq!(find_next(&buffer, &query, 7, false).unwrap(), None);
}

#[test]
fn find_prev_retreats_and_wraps() {
    let buffer = EditorBuffer::new("aa aa aa");
    let query = SearchQuery::literal("aa");
    assert_eq!(find_prev(&buffer, &query, 8, true).unwrap(), Some(6..8));
    assert_eq!(find_prev(&buffer, &query, 6, true).unwrap(), Some(3..5));
    assert_eq!(find_prev(&buffer, &query, 0, true).unwrap(), Some(6..8));
    assert_eq!(find_prev(&buffer, &query, 0, false).unwrap(), None);
}

#[test]
fn compiled_query_source_escapes_and_wraps() {
    let re = compile_query(&SearchQuery::new("a.b", false, true, false)).unwrap();
    assert_eq!(re.as_str(), r"(?i)\b(?:a\.b)\b");
    let re = compile_query(&SearchQuery::new("a+", true, false, true)).unwrap();
    assert_eq!(re.as_str(), "a+");
}

#[test]
fn collect_replacements_literal_and_regex() {
    let lit = collect_replacements("foo bar foo", &SearchQuery::literal("foo"), "$1").unwrap();
    assert_eq!(lit, vec![(0..3, "$1".to_string()), (8..11, "$1".to_string())]);

    let query = SearchQuery::new(r"(\d+)-(\d+)", true, false, true);
    let re = collect_replacements("1-2 x 30-4", &query, "$2/$1").unwrap();
    assert_eq!(re, vec![(0..3, "2/1".to_string()), (6..10, "4/30".to_string())]);

    let empty = collect_replacements("abc", &SearchQuery::new("x*", true, false, true), "y").unwrap();
    assert!(empty.is_empty());

    let err = collect_replacements("abc", &SearchQuery::literal(""), "y").unwrap_err();
    assert!(matches!(err, EditorError::EmptySearchPattern));
}

#[test]
fn search_state_set_query_resets_only_on_change() {
    let mut state = SearchState::new();
    assert!(state.query().is_none());
    assert_eq!(state.match_count(), 0);
    assert_eq!(state.current_index(), None);
    assert_eq!(state.current_match(), None);
    state.set_query(SearchQuery::literal("x"));
    assert_eq!(state.query().unwrap().pattern, "x");
    state.set_query(SearchQuery::literal("x"));
    assert_eq!(state.query().unwrap().pattern, "x");
    assert!(state.matches().is_empty());
    let dflt = SearchQuery::default();
    assert_eq!(dflt.pattern, "");
    assert!(dflt.case_sensitive);
}

#[test]
fn search_state_caches_and_rescans_on_edit() {
    let mut buffer = EditorBuffer::new("foo foo");
    let mut state = SearchState::new();
    state.set_query(SearchQuery::literal("foo"));
    state.refresh(&buffer).unwrap();
    assert_eq!(state.match_count(), 2);

    buffer.set_cursor_offset(buffer.len_bytes());
    buffer.insert(" foo");
    state.refresh(&buffer).unwrap();
    assert_eq!(state.match_count(), 3);
    assert_eq!(state.matches(), &[0..3, 4..7, 8..11]);
}

#[test]
fn search_state_navigation_tracks_current() {
    let buffer = EditorBuffer::new("aa aa aa");
    let mut state = SearchState::new();
    state.set_query(SearchQuery::literal("aa"));
    assert_eq!(state.next(&buffer, 0, true).unwrap(), Some(0..2));
    assert_eq!(state.current_index(), Some(0));
    assert_eq!(state.next(&buffer, 1, true).unwrap(), Some(3..5));
    assert_eq!(state.current_index(), Some(1));
    assert_eq!(state.prev(&buffer, 4, true).unwrap(), Some(3..5));
    assert_eq!(state.current_match(), Some(3..5));
}

#[test]
fn replace_many_is_a_single_undo_step() {
    let mut buffer = EditorBuffer::new("a a a");
    let n = buffer.replace_many(vec![
        (0..1, "b".to_string()),
        (2..3, "b".to_string()),
        (4..5, "b".to_string()),
    ]);
    assert_eq!(n, 3);
    assert_eq!(buffer.text().to_string(), "b b b");

    buffer.undo();
    assert_eq!(buffer.text().to_string(), "a a a");

    buffer.redo();
    assert_eq!(buffer.text().to_string(), "b b b");
}

#[test]
fn replace_many_with_no_matches_changes_nothing() {
    let mut buffer = EditorBuffer::new("hello");
    let version = buffer.version();
    let n = buffer.replace_many(vec![]);
    assert_eq!(n, 0);
    assert_eq!(buffer.version(), version);
    assert_eq!(buffer.text().to_string(), "hello");
}

#[test]
fn replace_many_handles_growing_replacements() {
    let mut buffer = EditorBuffer::new("ab ab");
    let n = buffer.replace_many(vec![(0..2, "abcd".to_string()), (3..5, "abcd".to_string())]);
    assert_eq!(n, 2);
    assert_eq!(buffer.text().to_string(), "abcd abcd");
    buffer.undo();
    assert_eq!(buffer.text().to_string(), "ab ab");
    buffer.redo();
    assert_eq!(buffer.text().to_string(), "abcd abcd");
}

#[test]
fn replace_all_query_literal_replaces_everything_at_once() {
    let mut buffer = EditorBuffer::new("foo bar foo");
    let n = replace_all_query(&mut buffer, &SearchQuery::literal("foo"), "baz").unwrap();
    assert_eq!(n, 2);
    assert_eq!(buffer.text().to_string(), "baz bar baz");
    buffer.undo();
    assert_eq!(buffer.text().to_string(), "foo bar foo");
}

#[test]
fn replace_all_query_expands_regex_captures() {
    let mut buffer = EditorBuffer::new("2024-01-02");
    let query = SearchQuery::new(r"(\d+)-(\d+)-(\d+)", true, false, true);
    let n = replace_all_query(&mut buffer, &query, "$3/$2/$1").unwrap();
    assert_eq!(n, 1);
    assert_eq!(buffer.text().to_string(), "02/01/2024");
    buffer.undo();
    assert_eq!(buffer.text().to_string(), "2024-01-02");
}

#[test]
fn replace_all_query_with_no_matches_is_a_noop() {
    let mut buffer = EditorBuffer::new("hello");
    let version = buffer.version();
    let n = replace_all_query(&mut buffer, &SearchQuery::literal("xyz"), "baz").unwrap();
    assert_eq!(n, 0);
    assert_eq!(buffer.version(), version);
}

#[test]
fn replace_all_query_rejects_empty_and_invalid_patterns() {
    let mut buffer = EditorBuffer::new("hello");
    let err = replace_all_query(&mut buffer, &SearchQuery::literal(""), "x").unwrap_err();
    assert!(matches!(err, EditorError::EmptySearchPattern));

    let bad = SearchQuery::new("(", true, false, true);
    let err = replace_all_query(&mut buffer, &bad, "x").unwrap_err();
    assert!(matches!(err, EditorError::InvalidRegex { .. }));
}

#[test]
fn replace_one_query_replaces_exact_match_only() {
    let mut buffer = EditorBuffer::new("foo bar foo");
    assert!(replace_one_query(&mut buffer, &SearchQuery::literal("foo"), 0..3, "baz").unwrap());
    assert_eq!(buffer.text().to_string(), "baz bar foo");
    buffer.undo();
    assert_eq!(buffer.text().to_string(), "foo bar foo");

    // Not a match boundary: untouched.
    assert!(
        !replace_one_query(&mut buffer, &SearchQuery::literal("foo"), 1..4, "baz").unwrap()
    );
    assert_eq!(buffer.text().to_string(), "foo bar foo");

    // Empty / out-of-bounds ranges: untouched.
    assert!(
        !replace_one_query(&mut buffer, &SearchQuery::literal("foo"), 0..0, "baz").unwrap()
    );
    assert!(
        !replace_one_query(&mut buffer, &SearchQuery::literal("foo"), 0..99, "baz").unwrap()
    );
}

#[test]
fn replace_one_query_expands_regex_captures() {
    let mut buffer = EditorBuffer::new("ab cd");
    let query = SearchQuery::new(r"(\w)(\w)", true, false, true);
    assert!(replace_one_query(&mut buffer, &query, 0..2, "$2$1").unwrap());
    assert_eq!(buffer.text().to_string(), "ba cd");
}

#[test]
fn collect_replacements_supports_line_scoped_offsets() {
    let mut buffer = EditorBuffer::new("foo one\nfoo two\n");
    let query = SearchQuery::literal("foo");
    // Simulate `:s` on row 1: collect on the line slice, offset by line start.
    let line_start = buffer.point_to_offset(Point::new(1, 0));
    let line = buffer.line_to_string(1);
    let local = collect_replacements(&line, &query, "bar").unwrap();
    assert_eq!(local.len(), 1);
    let scoped: Vec<(Range<usize>, String)> = local
        .into_iter()
        .map(|(r, s)| (r.start + line_start..r.end + line_start, s))
        .collect();
    assert_eq!(buffer.replace_many(scoped), 1);
    assert_eq!(buffer.text().to_string(), "foo one\nbar two\n");
    buffer.undo();
    assert_eq!(buffer.text().to_string(), "foo one\nfoo two\n");
}

#[test]
fn search_state_refresh_without_query_empties_cache() {
    let buffer = EditorBuffer::new("abc");
    let mut state = SearchState::new();
    state.refresh(&buffer).unwrap();
    assert_eq!(state.match_count(), 0);
    assert_eq!(state.next(&buffer, 0, true).unwrap(), None);
}

#[test]
fn search_state_prev_without_wrap_stops() {
    let buffer = EditorBuffer::new("aa aa");
    let mut state = SearchState::new();
    state.set_query(SearchQuery::literal("aa"));
    assert_eq!(state.prev(&buffer, 0, false).unwrap(), None);
    assert_eq!(state.current_index(), None);
    assert_eq!(state.prev(&buffer, 5, false).unwrap(), Some(3..5));
    assert_eq!(state.current_index(), Some(1));
}

#[test]
fn search_state_refresh_reports_query_errors() {
    let buffer = EditorBuffer::new("abc");
    let mut state = SearchState::new();
    state.set_query(SearchQuery::new("(", true, false, true));
    let err = state.refresh(&buffer).unwrap_err();
    assert!(matches!(err, EditorError::InvalidRegex { .. }));
    assert_eq!(state.match_count(), 0);
}

#[test]
fn literal_query_escapes_every_meta_character() {
    let pattern = "a+b (c) [d] {e} ^$ #&-~ \\ |?*.";
    let query = SearchQuery::literal(pattern);
    let re = compile_query(&query).unwrap();
    assert_eq!(re.as_str(), regex::escape(pattern));
    let text = format!("x{}y", pattern);
    let buffer = EditorBuffer::new(&text);
    let matches = find_matches(&buffer, &query).unwrap();
    assert_eq!(matches, vec![1..1 + pattern.len()]);
}
