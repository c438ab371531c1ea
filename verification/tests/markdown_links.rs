use twrite_core::buffer::EditorBuffer;
use twrite_core::markdown::config::{MarkdownConfig, MarkdownHighlighter};
use twrite_core::markdown::links::{extract_markdown_links, links_of_events, LinkEvent};
use twrite_core::syntax::ConcealedLine;

#[test]
fn links_test_markdown_highlighter_extract_links_trait() {
    let buffer = EditorBuffer::new("[Google](https://google.com)");
    let highlighter = MarkdownHighlighter::new();
    let links = highlighter.extract_links(&buffer, 0, "[Google](https://google.com)");
    assert_eq!(links.len(), 1);
    assert_eq!(links[0].0, 1..7);
    assert_eq!(links[0].1, "https://google.com");

    let none = highlighter.extract_links(&buffer, 0, "plain text");
    assert!(none.is_empty());
}

#[test]
fn test_extract_links_includes_wikilinks() {
    let buffer = EditorBuffer::new("See [[Note|Alias]] here");
    let highlighter = MarkdownHighlighter::new();
    let links = highlighter.extract_links(&buffer, 0, "See [[Note|Alias]] here");
    assert_eq!(links.len(), 1);
    assert_eq!(links[0].0, 11..16);
    assert_eq!(links[0].1, "wikilink:Note");
}


#[test]
fn extract_links_reference_autolink_and_heading_wikilinks() {
    let links = extract_markdown_links("a <https://x.io> b");
    assert_eq!(links.len(), 1);
    assert_eq!(links[0].0, 3..15);
    assert_eq!(links[0].1, "https://x.io");

    let links = extract_markdown_links("[one](u1) and [[Note#Part]]");
    assert_eq!(links.len(), 2);
    assert_eq!(links[0], (1..4, "u1".to_string()));
    assert_eq!(links[1], (16..25, "wikilink:Note#Part".to_string()));

    // Frontmatter rows never yield links.
    let doc = EditorBuffer::new("---\nurl: [x](y)\n---\n[x](y)\n");
    let highlighter = MarkdownHighlighter::new();
    assert!(highlighter.extract_links(&doc, 1, "url: [x](y)").is_empty());
    assert_eq!(highlighter.extract_links(&doc, 3, "[x](y)").len(), 1);
}

#[test]
fn links_of_events_follows_the_events_given() {
    // A start and an end around `[ab](c)`, with an unmatched end first.
    let evs = vec![
        LinkEvent::End(3),
        LinkEvent::Other,
        LinkEvent::Start(0, "c".to_string()),
        LinkEvent::End(7),
    ];
    let links = links_of_events("[ab](c)", &evs);
    assert_eq!(links, vec![(1..3, "c".to_string())]);

    // An end past the line is clamped; a wikilink overlapping a link is
    // dropped, one elsewhere kept.
    let evs = vec![LinkEvent::Start(0, "d".to_string()), LinkEvent::End(99)];
    let links = links_of_events("[[x]] [[y]]", &evs);
    assert_eq!(links, vec![(0..11, "d".to_string())]);
    let evs = vec![LinkEvent::Start(0, "d".to_string()), LinkEvent::End(5)];
    let links = links_of_events("[[x]] [[y]]", &evs);
    assert_eq!(links, vec![(0..5, "d".to_string()), (8..9, "wikilink:y".to_string())]);
}

fn expanded_plain(highlighter: &MarkdownHighlighter, buffer: &EditorBuffer, row: usize, line: &str) -> String {
    let concealed = ConcealedLine::build(line, &[]);
    let pads = highlighter.expand_line(buffer, row, &concealed);
    concealed.expanded(&pads).display_text
}

#[test]
fn table_rows_pad_to_shared_column_widths() {
    let buffer = EditorBuffer::new("| a | b |\n| --- | --- |\n| looong | c |\n| d | e |");
    let highlighter = MarkdownHighlighter::new();
    assert_eq!(expanded_plain(&highlighter, &buffer, 0, "| a | b |"), "| a      | b   |");
    assert_eq!(expanded_plain(&highlighter, &buffer, 2, "| looong | c |"), "| looong | c   |");
    assert_eq!(expanded_plain(&highlighter, &buffer, 1, "| --- | --- |"), "| ------ | --- |");
    assert_eq!(expanded_plain(&highlighter, &buffer, 3, "| d | e |"), "| d      | e   |");
}

#[test]
fn table_pads_honor_alignment_and_config() {
    let buffer = EditorBuffer::new("| ab | c |\n| ---: | :-: |\n| d | e |");
    let highlighter = MarkdownHighlighter::new();
    // Right-aligned column pads before the content, centred on both sides.
    assert_eq!(expanded_plain(&highlighter, &buffer, 2, "| d | e |"), "|    d |  e  |");
    assert_eq!(expanded_plain(&highlighter, &buffer, 1, "| ---: | :-: |"), "| ---: | :-: |");

    let mut config = MarkdownConfig::default();
    config.table_alignment = false;
    let off = MarkdownHighlighter::with_config(config);
    assert_eq!(expanded_plain(&off, &buffer, 2, "| d | e |"), "| d | e |");
    // Rows outside tables get no padding.
    let plain = EditorBuffer::new("text");
    assert_eq!(expanded_plain(&highlighter, &plain, 0, "text"), "text");
}

#[test]
fn markdown_test_markdown_highlighter_extract_links_trait() {
    links_test_markdown_highlighter_extract_links_trait();
}





#[test]
fn deep_table_rows_keep_wrap_opt_out_and_padding() {
    let mut s = String::from("| a | b |\n| --- | --- |\n");
    for i in 0..700 {
        s.push_str(&format!("| c{i} | d |\n"));
    }
    let buffer = EditorBuffer::new(&s);
    let highlighter = MarkdownHighlighter::new();
    for row in [10usize, 300, 699, 701] {
        let line = buffer.line_to_string(row);
        let text = line.trim_end_matches(['\r', '\n']);
        assert!(!highlighter.should_wrap_line(&buffer, row), "row {row}");
        let concealed = ConcealedLine::build(text, &[]);
        assert!(!highlighter.expand_line(&buffer, row, &concealed).is_empty(), "row {row}");
    }
}
