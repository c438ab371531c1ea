use std::ops::Range;
use twrite_core::buffer::EditorBuffer;
use twrite_core::markdown::inline::{highlight_inline_markdown, inline_spans_of_events, InlineEvent};
use twrite_core::markdown::list::{format_list_prefix, parse_list_item, ListMarker};
use twrite_core::prompt::{PromptPlacement, PromptSpec, PromptState};
use twrite_core::search::{
    expanded_replacements_of, literal_replacements_of, matches_of, SearchQuery, SearchState,
};
use twrite_core::syntax::{ConcealedLine, HighlightTag, StyleSpan, StyleValue};

fn tag_spans(spans: &[StyleSpan]) -> Vec<(Range<usize>, StyleValue)> {
    spans.iter().map(|s| (s.range.clone(), s.style)).collect()
}

#[test]
fn strong_event_conceals_its_delimiters() {
    let evs = vec![InlineEvent::StrongStart(2), InlineEvent::Other, InlineEvent::StrongEnd(7)];
    let mut spans = Vec::new();
    inline_spans_of_events("a **b** c", None, Some(HighlightTag::Dimmed), &evs, &mut spans);
    assert_eq!(
        tag_spans(&spans),
        vec![
            (2..4, StyleValue::Tag(HighlightTag::Dimmed)),
            (4..5, StyleValue::Tag(HighlightTag::Bold)),
            (5..7, StyleValue::Tag(HighlightTag::Dimmed)),
        ]
    );
}

#[test]
fn cursor_inside_strong_keeps_it_whole() {
    let evs = vec![InlineEvent::StrongStart(2), InlineEvent::StrongEnd(7)];
    let mut spans = Vec::new();
    inline_spans_of_events("a **b** c", Some(3), Some(HighlightTag::Hidden), &evs, &mut spans);
    assert_eq!(tag_spans(&spans), vec![(2..7, StyleValue::Tag(HighlightTag::Bold))]);
}

#[test]
fn parsed_code_span_conceals_backticks() {
    let mut spans = Vec::new();
    highlight_inline_markdown("x `code` y", None, Some(HighlightTag::Hidden), &mut spans);
    assert_eq!(
        tag_spans(&spans),
        vec![
            (2..3, StyleValue::Tag(HighlightTag::Hidden)),
            (3..7, StyleValue::Tag(HighlightTag::Code)),
            (7..8, StyleValue::Tag(HighlightTag::Hidden)),
        ]
    );
}

#[test]
fn mark_pair_is_highlighted_and_literal_inside_code() {
    let mut spans = Vec::new();
    highlight_inline_markdown("==hi==", None, Some(HighlightTag::Dimmed), &mut spans);
    assert_eq!(
        tag_spans(&spans),
        vec![
            (0..2, StyleValue::Tag(HighlightTag::Dimmed)),
            (2..4, StyleValue::Tag(HighlightTag::Highlight)),
            (4..6, StyleValue::Tag(HighlightTag::Dimmed)),
        ]
    );
    let mut in_code = Vec::new();
    highlight_inline_markdown("`==a==`", None, None, &mut in_code);
    assert!(in_code.iter().all(|s| s.style != StyleValue::Tag(HighlightTag::Highlight)));
}

#[test]
fn wikilink_shows_only_its_alias() {
    let mut spans = Vec::new();
    highlight_inline_markdown("[[Note|Alias]]", None, Some(HighlightTag::Hidden), &mut spans);
    assert_eq!(
        tag_spans(&spans),
        vec![
            (0..7, StyleValue::Tag(HighlightTag::Hidden)),
            (7..12, StyleValue::Tag(HighlightTag::Link)),
            (12..14, StyleValue::Tag(HighlightTag::Hidden)),
        ]
    );
}

#[test]
fn matches_off_char_boundaries_are_dropped() {
    let kept = matches_of("a\u{e9}b", &vec![(0, 1), (1, 2), (3, 4)]);
    assert_eq!(kept, vec![0..1, 3..4]);
}

#[test]
fn literal_replacements_skip_empty_ranges() {
    let reps = literal_replacements_of("ab ab", &vec![(0, 2), (2, 2), (3, 5)], "X");
    assert_eq!(reps, vec![(0..2, "X".to_string()), (3..5, "X".to_string())]);
}

#[test]
fn expanded_replacements_keep_their_text() {
    let reps = expanded_replacements_of("ab", &vec![(0, 2, "Z".to_string())]);
    assert_eq!(reps, vec![(0..2, "Z".to_string())]);
}

#[test]
fn formatted_prefix_parses_back() {
    let marker = ListMarker::Ordered { number: 12, delimiter: ')', task: Some('x') };
    let line = format!("{}done", format_list_prefix(2, &marker));
    let item = parse_list_item(&line).unwrap();
    assert_eq!(item.indent_width, 2);
    assert_eq!(item.indent_bytes, 2);
    assert_eq!(item.marker, marker);
    assert_eq!(item.content_start_byte, 10);
    let bullet = ListMarker::Bullet { bullet: '+', task: None };
    let line = format!("{}item", format_list_prefix(0, &bullet));
    let item = parse_list_item(&line).unwrap();
    assert_eq!(item.marker, bullet);
    assert_eq!(item.content_start_byte, 2);
}

#[test]
fn source_to_display_is_monotone_and_bounded() {
    let line = "a **b** c";
    let spans = vec![
        StyleSpan::tag(2..4, HighlightTag::Hidden),
        StyleSpan::tag(4..5, HighlightTag::Bold),
        StyleSpan::tag(5..7, HighlightTag::Hidden),
    ];
    let c = ConcealedLine::build(line, &spans);
    assert_eq!(c.display_text, "a b c");
    let mut prev = 0;
    for s in 0..=line.len() + 2 {
        let d = c.source_to_display(s);
        assert!(prev <= d);
        assert!(d <= c.display_text.len());
        prev = d;
    }
}

#[test]
fn prompt_cursor_stays_on_char_boundaries() {
    let mut p = PromptState::new();
    p.open(PromptSpec::new("t", "", "", PromptPlacement::BottomBar, false), "h\u{e9}llo");
    for _ in 0..4 {
        p.move_left();
        assert!(p.input().is_char_boundary(p.cursor()));
    }
    p.insert("\u{1f600}");
    assert!(p.input().is_char_boundary(p.cursor()));
    p.backspace();
    assert!(p.input().is_char_boundary(p.cursor()));
}

#[test]
fn set_query_clears_matches_until_refresh() {
    let buffer = EditorBuffer::new("x x");
    let mut state = SearchState::new();
    state.set_query(SearchQuery::literal("x"));
    state.refresh(&buffer).unwrap();
    assert_eq!(state.match_count(), 2);
    state.set_query(SearchQuery::literal("x"));
    assert!(state.matches().is_empty());
    assert_eq!(state.match_count(), 0);
    assert_eq!(state.current_index(), None);
    state.refresh(&buffer).unwrap();
    assert_eq!(state.match_count(), 2);
}

use twrite_core::hook::{KeyEvent, Modifiers};
use twrite_core::markdown::completion::{
    accept_completion, clamp_selection, completion_fragment, completion_query, completion_step, completion_trigger_at,
    kept_rows, refresh_session, CompletionSession, CompletionStep,
};
use twrite_core::prompt::PromptItem;

fn session_at(trigger_start: usize, items: Vec<PromptItem>, selected: usize) -> CompletionSession {
    CompletionSession { trigger_start, trigger_row: 0, items, selected }
}

fn key(k: &str) -> KeyEvent {
    KeyEvent { key: k.to_string(), modifiers: Modifiers { ctrl: false, alt: false, shift: false, meta: false } }
}

#[test]
fn completion_opens_after_a_bracket() {
    let mut buffer = EditorBuffer::new("See [");
    buffer.set_cursor_offset(5);
    assert_eq!(completion_trigger_at(&buffer), Some(4));
    buffer.set_cursor_offset(4);
    assert_eq!(completion_trigger_at(&buffer), None);
}

#[test]
fn completion_query_reads_between_anchor_and_cursor() {
    let mut buffer = EditorBuffer::new("See [[No");
    buffer.set_cursor_offset(8);
    let s = session_at(4, Vec::new(), 0);
    assert_eq!(completion_query(&buffer, &s), Some("No".to_string()));
    buffer.set_cursor_offset(5);
    assert_eq!(completion_query(&buffer, &s), None);
    let broken = session_at(3, Vec::new(), 0);
    buffer.set_cursor_offset(8);
    assert_eq!(completion_query(&buffer, &broken), None);
}

#[test]
fn completion_fragment_stops_at_alias() {
    assert_eq!(completion_fragment("Note|Alias"), "Note");
    assert_eq!(completion_fragment("Note"), "Note");
    assert_eq!(completion_fragment("|x"), "");
}

#[test]
fn completion_keys_step_the_session() {
    let mut buffer = EditorBuffer::new("[[ab");
    buffer.set_cursor_offset(4);
    let items = vec![PromptItem::new("a"), PromptItem::new("b"), PromptItem::new("c")];
    let s = session_at(0, items, 0);
    assert_eq!(completion_step(&s, &buffer, &key("up")), CompletionStep::Select(2));
    assert_eq!(completion_step(&s, &buffer, &key("down")), CompletionStep::Select(1));
    assert_eq!(completion_step(&s, &buffer, &key("enter")), CompletionStep::Accept(0));
    assert_eq!(completion_step(&s, &buffer, &key("tab")), CompletionStep::Accept(0));
    assert_eq!(completion_step(&s, &buffer, &key("escape")), CompletionStep::Dismiss);
    assert_eq!(completion_step(&s, &buffer, &key("backspace")), CompletionStep::Backspace);
    assert_eq!(completion_step(&s, &buffer, &key("x")), CompletionStep::Insert('x'));
    assert_eq!(completion_step(&s, &buffer, &key("]")), CompletionStep::Release);
    let empty = session_at(0, Vec::new(), 0);
    assert_eq!(completion_step(&empty, &buffer, &key("tab")), CompletionStep::PassThrough);
    assert_eq!(completion_step(&empty, &buffer, &key("enter")), CompletionStep::Release);
    buffer.set_cursor_offset(2);
    assert_eq!(completion_step(&s, &buffer, &key("backspace")), CompletionStep::Release);
    buffer.set_cursor_offset(1);
    assert_eq!(completion_step(&s, &buffer, &key("x")), CompletionStep::Release);
}

#[test]
fn completion_rows_are_capped_and_ranked() {
    let candidates: Vec<PromptItem> = (0..10).map(|i| PromptItem::new(&format!("n{i}"))).collect();
    let ranked: Vec<(usize, i64)> = (0..10).rev().map(|i| (i, 0)).collect();
    let rows = kept_rows(&candidates, &ranked);
    assert_eq!(rows.len(), 8);
    assert_eq!(rows[0].label, "n9");
    assert_eq!(clamp_selection(5, 3), 2);
    assert_eq!(clamp_selection(5, 0), 0);
    let mut s = session_at(0, Vec::new(), 4);
    let provided = vec![PromptItem::new("Alpha"), PromptItem::new("Beta"), PromptItem::new("Alps")];
    refresh_session(&mut s, &provided, "al|x");
    let labels: Vec<&str> = s.items.iter().map(|i| i.label.as_str()).collect();
    assert!(labels.contains(&"Alpha") && labels.contains(&"Alps"));
    assert!(!labels.contains(&"Beta"));
    assert_eq!(s.selected, 1);
}

#[test]
fn accepting_a_row_closes_the_link() {
    let mut buffer = EditorBuffer::new("See [[No");
    buffer.set_cursor_offset(8);
    assert!(accept_completion(&mut buffer, 4, "Note"));
    assert_eq!(buffer.text().to_string(), "See [[Note]]");
    assert_eq!(buffer.cursor_offset(), 10);

    let mut aliased = EditorBuffer::new("[[No|Al");
    aliased.set_cursor_offset(7);
    assert!(accept_completion(&mut aliased, 0, "Note"));
    assert_eq!(aliased.text().to_string(), "[[Note|Al]]");
    assert_eq!(aliased.cursor_offset(), 6);

    let mut closed = EditorBuffer::new("[[No]]");
    closed.set_cursor_offset(4);
    assert!(accept_completion(&mut closed, 0, "Note"));
    assert_eq!(closed.text().to_string(), "[[Note]]");
    assert_eq!(closed.cursor_offset(), 6);

    let mut early = EditorBuffer::new("[[No");
    early.set_cursor_offset(1);
    assert!(!accept_completion(&mut early, 0, "Note"));
    assert_eq!(early.text().to_string(), "[[No");
}

#[test]
fn visible_source_bytes_survive_the_display_round_trip() {
    let line = "a **b** c";
    let spans = vec![
        StyleSpan::tag(2..4, HighlightTag::Hidden),
        StyleSpan::tag(5..7, HighlightTag::Hidden),
    ];
    let c = ConcealedLine::build(line, &spans);
    for s in [0usize, 1, 4, 7, 8] {
        assert_eq!(c.display_to_source(c.source_to_display(s)), s);
    }
}
