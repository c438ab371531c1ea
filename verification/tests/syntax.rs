use twrite_core::buffer::EditorBuffer;
use twrite_core::syntax::{
    split_line_intervals, ConcealedLine, DisplayPad, HighlightTag, Rgba, StyleSpan, StyleValue,
    SyntaxHighlighter,
};

#[test]
fn test_rgba_hex_conversion() {
    let red = Rgba::hex(0xFF0000);
    assert_eq!(red, Rgba::new(255, 0, 0, 255));

    let custom = Rgba::hex(0x123456);
    assert_eq!(custom, Rgba::new(0x12, 0x34, 0x56, 255));
}

#[test]
fn test_split_line_empty() {
    let segments = split_line_intervals(0, &[], None);
    assert!(segments.is_empty());
}

#[test]
fn test_split_line_plain_text() {
    let segments = split_line_intervals(11, &[], None);
    assert_eq!(segments.len(), 1);
    assert_eq!(segments[0].range, 0..11);
    assert_eq!(segments[0].style, None);
    assert!(!segments[0].is_selected);
}

#[test]
fn test_split_line_with_single_span() {
    let spans = vec![StyleSpan::tag(0..5, HighlightTag::Keyword)];
    let segments = split_line_intervals(11, &spans, None);

    assert_eq!(segments.len(), 2);
    assert_eq!(segments[0].range, 0..5);
    assert_eq!(segments[0].style, Some(&StyleValue::Tag(HighlightTag::Keyword)));
    assert!(!segments[0].is_selected);

    assert_eq!(segments[1].range, 5..11);
    assert_eq!(segments[1].style, None);
    assert!(!segments[1].is_selected);
}

#[test]
fn test_split_line_with_overlapping_selection() {
    let spans = vec![StyleSpan::tag(0..5, HighlightTag::Keyword)];
    let segments = split_line_intervals(11, &spans, Some((3, 8)));

    assert_eq!(segments.len(), 4);

    assert_eq!(segments[0].range, 0..3);
    assert_eq!(segments[0].style, Some(&StyleValue::Tag(HighlightTag::Keyword)));
    assert!(!segments[0].is_selected);

    assert_eq!(segments[1].range, 3..5);
    assert_eq!(segments[1].style, Some(&StyleValue::Tag(HighlightTag::Keyword)));
    assert!(segments[1].is_selected);

    assert_eq!(segments[2].range, 5..8);
    assert_eq!(segments[2].style, None);
    assert!(segments[2].is_selected);

    assert_eq!(segments[3].range, 8..11);
    assert_eq!(segments[3].style, None);
    assert!(!segments[3].is_selected);
}

#[test]
fn test_concealed_line_headings_align_and_collapse() {
    let line1 = "# hello";
    let spans1 = vec![
        StyleSpan::tag(0..2, HighlightTag::Hidden),
        StyleSpan::tag(2..7, HighlightTag::Heading(1)),
    ];
    let concealed1 = ConcealedLine::build(line1, &spans1);
    assert_eq!(concealed1.display_text, "hello");
    assert_eq!(concealed1.spans.len(), 1);
    assert_eq!(concealed1.spans[0].range, 0..5);
    assert_eq!(concealed1.spans[0].style, StyleValue::Tag(HighlightTag::Heading(1)));
    assert_eq!(concealed1.display_to_source(0), 2);
    assert_eq!(concealed1.source_to_display(2), 0);

    let line2 = "## hello";
    let spans2 = vec![
        StyleSpan::tag(0..3, HighlightTag::Hidden),
        StyleSpan::tag(3..8, HighlightTag::Heading(2)),
    ];
    let concealed2 = ConcealedLine::build(line2, &spans2);
    assert_eq!(concealed2.display_text, "hello");
    assert_eq!(concealed2.spans.len(), 1);
    assert_eq!(concealed2.spans[0].range, 0..5);
    assert_eq!(concealed2.spans[0].style, StyleValue::Tag(HighlightTag::Heading(2)));
    assert_eq!(concealed2.display_to_source(0), 3);
    assert_eq!(concealed2.source_to_display(3), 0);

    assert_eq!(concealed1.display_text, concealed2.display_text);

    let line_inline = "Hi **bold**!";
    let spans_inline = vec![
        StyleSpan::tag(3..5, HighlightTag::Hidden),
        StyleSpan::tag(5..9, HighlightTag::Bold),
        StyleSpan::tag(9..11, HighlightTag::Hidden),
    ];
    let concealed_inline = ConcealedLine::build(line_inline, &spans_inline);
    assert_eq!(concealed_inline.display_text, "Hi bold!");
    assert_eq!(concealed_inline.spans.len(), 1);
    assert_eq!(concealed_inline.spans[0].range, 3..7);
    assert_eq!(concealed_inline.spans[0].style, StyleValue::Tag(HighlightTag::Bold));
    assert_eq!(concealed_inline.display_to_source(3), 5);
    assert_eq!(concealed_inline.source_to_display(5), 3);
}

#[test]
fn test_expanded_line_pads_and_maps() {
    let line = "| a | b |";
    let spans = vec![
        StyleSpan::tag(1..3, HighlightTag::Custom("cell")),
        StyleSpan::tag(4..5, HighlightTag::Punctuation),
    ];
    let base = ConcealedLine::build(line, &spans);
    let padded = base.expanded(&[DisplayPad {
        display_at: 4,
        fill: ' ',
        len: 2,
    }]);
    assert_eq!(padded.display_text, "| a   | b |");
    assert!(padded
        .spans
        .contains(&StyleSpan::tag(1..3, HighlightTag::Custom("cell"))));
    assert!(padded
        .spans
        .contains(&StyleSpan::tag(6..7, HighlightTag::Punctuation)));
    assert_eq!(padded.display_to_source(4), 4);
    assert_eq!(padded.display_to_source(5), 4);
    assert_eq!(padded.display_to_source(6), 4);
    assert_eq!(padded.source_to_display(4), 4);
    assert_eq!(padded.source_to_display(5), 7);

    let same = base.expanded(&[]);
    assert_eq!(same.display_text, base.display_text);
    assert_eq!(same.spans, base.spans);
}

#[test]
fn expanded_sorts_pads_and_snaps_to_char_boundaries() {
    let base = ConcealedLine::build("aé", &[]);
    let padded = base.expanded(&[
        DisplayPad { display_at: 2, fill: '.', len: 1 },
        DisplayPad { display_at: 0, fill: '-', len: 1 },
    ]);
    assert_eq!(padded.display_text, "-aé.");
    assert_eq!(padded.display_to_source(0), 0);
}

#[test]
fn style_value_from_tag() {
    let v: StyleValue = HighlightTag::Bold.into();
    assert_eq!(v, StyleValue::Tag(HighlightTag::Bold));
    assert_eq!(StyleValue::from(HighlightTag::Link), StyleValue::Tag(HighlightTag::Link));
}

struct WholeLineComment;

impl SyntaxHighlighter for WholeLineComment {
    fn highlight_line(&self, _buffer: &EditorBuffer, _row: usize, line_text: &str) -> Vec<StyleSpan> {
        vec![StyleSpan::tag(0..line_text.len(), HighlightTag::Comment)]
    }
}

#[test]
fn syntax_highlighter_defaults() {
    let buffer = EditorBuffer::new("[a](b)");
    let h = WholeLineComment;
    assert_eq!(h.highlight_line(&buffer, 0, "[a](b)").len(), 1);
    assert!(h.extract_links(&buffer, 0, "[a](b)").is_empty());
    let concealed = ConcealedLine::build("[a](b)", &[]);
    assert!(h.expand_line(&buffer, 0, &concealed).is_empty());
    assert!(h.should_wrap_line(&buffer, 0));
}

struct MockHighlighter;

impl SyntaxHighlighter for MockHighlighter {
    fn highlight_line(&self, _buffer: &EditorBuffer, _row: usize, line_text: &str) -> Vec<StyleSpan> {
        if line_text.starts_with("# ") {
            vec![StyleSpan::tag(0..line_text.len(), HighlightTag::Heading(1))]
        } else {
            vec![]
        }
    }
}

#[test]
fn test_syntax_highlighter_trait() {
    let buffer = EditorBuffer::new("# Title\nBody");
    let highlighter = MockHighlighter;

    let spans_0 = highlighter.highlight_line(&buffer, 0, "# Title");
    assert_eq!(spans_0.len(), 1);
    assert_eq!(spans_0[0].range, 0..7);
    assert_eq!(spans_0[0].style, StyleValue::Tag(HighlightTag::Heading(1)));

    let spans_1 = highlighter.highlight_line(&buffer, 1, "Body");
    assert!(spans_1.is_empty());
}

#[test]
fn test_highlighter_expansion_defaults_are_noops() {
    let buffer = EditorBuffer::new("hello");
    let highlighter = MockHighlighter;
    let concealed = ConcealedLine::build("hello", &[]);
    assert!(highlighter.expand_line(&buffer, 0, &concealed).is_empty());
    assert!(highlighter.should_wrap_line(&buffer, 0));
}
