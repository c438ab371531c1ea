use twrite_core::markdown::folding::{heading_level, is_list_item};
use twrite_core::markdown::links::{is_wikilink_url, parse_wikilinks, wikilink_url};
use twrite_core::markdown::list::{format_list_prefix, parse_indent, parse_list_item, ListMarker};
use twrite_core::buffer::EditorBuffer;
use twrite_core::markdown::table::{
    fence_rows, find_unescaped_pipes, is_fenced_row, parse_delimiter_row, split_table_cells,
    table_block_at, table_block_at_with_fences, table_layouts, table_layouts_with_fences,
    TableAlignment, TableRowKind,
};
use twrite_core::syntax::display_width;

#[test]
fn markdown_test_table_pipes_ignore_escapes_and_code() {
    assert_eq!(find_unescaped_pipes("| a | b |"), vec![0, 4, 8]);
    assert_eq!(find_unescaped_pipes("| a \\| b |"), vec![0, 9]);
    assert_eq!(find_unescaped_pipes("| `a|b` | c |"), vec![0, 8, 12]);
    assert_eq!(find_unescaped_pipes("| a \\\\| b |"), vec![0, 6, 10]);
}

#[test]
fn markdown_test_table_split_cells_outer_pipes_optional() {
    let (pipes, cells) = split_table_cells("| a | b |");
    assert_eq!(pipes, vec![0, 4, 8]);
    assert_eq!(cells.len(), 2);

    let (pipes_bare, cells_bare) = split_table_cells("a | b");
    assert_eq!(pipes_bare, vec![2]);
    assert_eq!(cells_bare.len(), 2);

    let (pipes_none, cells_none) = split_table_cells("plain");
    assert!(pipes_none.is_empty());
    assert_eq!(cells_none, vec![0..5]);
}

#[test]
fn markdown_test_table_parse_delimiter_alignments() {
    assert_eq!(
        parse_delimiter_row("| --- | :--- | ---: | :---: |"),
        Some(vec![
            TableAlignment::Unaligned,
            TableAlignment::Left,
            TableAlignment::Right,
            TableAlignment::Center
        ])
    );
    assert_eq!(
        parse_delimiter_row("--- | :-:"),
        Some(vec![TableAlignment::Unaligned, TableAlignment::Center])
    );
    assert!(parse_delimiter_row("| --- | nope |").is_none());
    assert!(parse_delimiter_row("| --- | :: |").is_none());
    assert!(parse_delimiter_row("").is_none());
}

#[test]
fn table_test_table_pipes_ignore_escapes_and_code() {
    assert_eq!(find_unescaped_pipes("| a | b |"), vec![0, 4, 8]);
    assert_eq!(find_unescaped_pipes("| a \\| b |"), vec![0, 9]);
    assert_eq!(find_unescaped_pipes("| `a|b` | c |"), vec![0, 8, 12]);
    assert_eq!(find_unescaped_pipes("| a \\\\| b |"), vec![0, 6, 10]);
}

#[test]
fn table_test_table_split_cells_outer_pipes_optional() {
    let (pipes, cells) = split_table_cells("| a | b |");
    assert_eq!(pipes, vec![0, 4, 8]);
    assert_eq!(cells.len(), 2);

    let (pipes_bare, cells_bare) = split_table_cells("a | b");
    assert_eq!(pipes_bare, vec![2]);
    assert_eq!(cells_bare.len(), 2);

    let (pipes_none, cells_none) = split_table_cells("plain");
    assert!(pipes_none.is_empty());
    assert_eq!(cells_none, vec![0..5]);
}

#[test]
fn table_test_table_parse_delimiter_alignments() {
    assert_eq!(
        parse_delimiter_row("| --- | :--- | ---: | :---: |"),
        Some(vec![
            TableAlignment::Unaligned,
            TableAlignment::Left,
            TableAlignment::Right,
            TableAlignment::Center
        ])
    );
    assert_eq!(
        parse_delimiter_row("--- | :-:"),
        Some(vec![TableAlignment::Unaligned, TableAlignment::Center])
    );
    assert!(parse_delimiter_row("| --- | nope |").is_none());
    assert!(parse_delimiter_row("| --- | :: |").is_none());
    assert!(parse_delimiter_row("").is_none());
}

#[test]
fn delimiter_row_lone_pipe_has_no_cells() {
    assert!(parse_delimiter_row("|").is_none());
    assert_eq!(parse_delimiter_row("|-|\n"), Some(vec![TableAlignment::Unaligned]));
}

#[test]
fn split_cells_reports_byte_offsets_after_multibyte_text() {
    let (pipes, cells) = split_table_cells("é | b");
    assert_eq!(pipes, vec![3]);
    assert_eq!(cells, vec![0..3, 4..6]);
}

#[test]
fn fenced_rows_count_markers_above() {
    assert!(!is_fenced_row(&[0, 2], 0));
    assert!(is_fenced_row(&[0, 2], 1));
    assert!(!is_fenced_row(&[0, 2], 3));
}

#[test]
fn test_parse_wikilink_forms() {
    let plain = parse_wikilinks("See [[Note]] here");
    assert_eq!(plain.len(), 1);
    assert_eq!(plain[0].note, "Note");
    assert_eq!(plain[0].heading, None);
    assert_eq!(plain[0].alias, None);
    assert_eq!(plain[0].full_range, 4..12);
    assert_eq!(plain[0].display_range, 6..10);

    let aliased = parse_wikilinks("See [[Note|Alias]] here");
    assert_eq!(aliased.len(), 1);
    assert_eq!(aliased[0].note, "Note");
    assert_eq!(aliased[0].alias.as_deref(), Some("Alias"));
    assert_eq!(aliased[0].display_range, 11..16);

    let headed = parse_wikilinks("See [[Note#Heading]] here");
    assert_eq!(headed.len(), 1);
    assert_eq!(headed[0].note, "Note");
    assert_eq!(headed[0].heading.as_deref(), Some("Heading"));

    let both = parse_wikilinks("[[Note#Heading|Alias]]");
    assert_eq!(both.len(), 1);
    assert_eq!(both[0].note, "Note");
    assert_eq!(both[0].heading.as_deref(), Some("Heading"));
    assert_eq!(both[0].alias.as_deref(), Some("Alias"));
}

#[test]
fn test_parse_wikilink_literal_cases() {
    for line in ["unclosed [[Note", "empty [[]]", "blank [[  ]]", "no links here"] {
        assert!(parse_wikilinks(line).is_empty(), "{line:?} must not parse as a wikilink");
    }
    assert!(parse_wikilinks("![[Embed]]").is_empty(), "embeds stay literal until transclusions land");
    let multi = parse_wikilinks("[[One]] and [[Two|2]]");
    assert_eq!(multi.len(), 2);
    assert_eq!(multi[0].note, "One");
    assert_eq!(multi[1].note, "Two");
}

#[test]
fn wikilink_ranges_are_byte_offsets() {
    let links = parse_wikilinks("é [[Nöte]]");
    assert_eq!(links.len(), 1);
    assert_eq!(links[0].full_range, 3..12);
    assert_eq!(links[0].display_range, 5..10);
    assert!(parse_wikilinks("\\[[Escaped]]").is_empty());
    assert!(parse_wikilinks("[[a [[b]]").is_empty());
}

#[test]
fn wikilink_urls_roundtrip_scheme() {
    assert_eq!(wikilink_url("Note", None), "wikilink:Note");
    assert_eq!(wikilink_url("Note", Some("Heading")), "wikilink:Note#Heading");
    assert!(is_wikilink_url("wikilink:Note"));
    assert!(!is_wikilink_url("https://example.com"));
    assert!(!is_wikilink_url("wiki"));
}

#[test]
fn test_parse_list_item_bullets() {
    let item = parse_list_item("- Simple item").unwrap();
    assert_eq!(item.indent_width, 0);
    assert_eq!(item.marker, ListMarker::Bullet { bullet: '-', task: None });
    assert_eq!(item.content_start_byte, 2);

    let item2 = parse_list_item("  * [x] Task").unwrap();
    assert_eq!(item2.indent_width, 2);
    assert_eq!(item2.marker, ListMarker::Bullet { bullet: '*', task: Some('x') });
    assert_eq!(item2.content_start_byte, 8);
}

#[test]
fn test_parse_list_item_ordered() {
    let item = parse_list_item("1. First").unwrap();
    assert_eq!(item.indent_width, 0);
    assert_eq!(item.marker, ListMarker::Ordered { number: 1, delimiter: '.', task: None });
    assert_eq!(item.content_start_byte, 3);

    let item2 = parse_list_item("    12) [ ] Task").unwrap();
    assert_eq!(item2.indent_width, 4);
    assert_eq!(item2.marker, ListMarker::Ordered { number: 12, delimiter: ')', task: Some(' ') });
    assert_eq!(item2.content_start_byte, 12);
}

#[test]
fn test_format_list_prefix() {
    assert_eq!(format_list_prefix(2, &ListMarker::Bullet { bullet: '-', task: None }), "  - ");
    assert_eq!(
        format_list_prefix(0, &ListMarker::Ordered { number: 3, delimiter: '.', task: Some('x') }),
        "3. [x] "
    );
}

#[test]
fn list_edge_cases() {
    assert_eq!(parse_indent("\t  x"), (6, 3));
    assert!(parse_list_item("").is_none());
    assert!(parse_list_item("   ").is_none());
    assert_eq!(parse_list_item("+").unwrap().content_start_byte, 1);
    assert!(parse_list_item("12x").is_none());
    assert!(parse_list_item("99999999999999999999999. big").is_none());
    assert_eq!(
        parse_list_item("7.").unwrap().marker,
        ListMarker::Ordered { number: 7, delimiter: '.', task: None }
    );
    assert_eq!(ListMarker::Ordered { number: 4, delimiter: ')', task: None }.number(), Some(4));
    assert_eq!(ListMarker::Bullet { bullet: '-', task: None }.number(), None);
}

#[test]
fn shared_heading_levels_match_highlighting() {
    assert_eq!(heading_level("# H"), Some(1));
    assert_eq!(heading_level("###### H"), Some(6));
    assert_eq!(heading_level("#nospace"), None);
    assert_eq!(heading_level("####### H"), None);
}

#[test]
fn list_item_detection_for_folding() {
    assert!(is_list_item("-"));
    assert!(is_list_item("* x"));
    assert!(is_list_item("3."));
    assert!(is_list_item("3) y"));
    assert!(!is_list_item("3.y"));
    assert!(!is_list_item("-x"));
}

#[test]
fn markdown_test_table_block_detection_and_kinds() {
    let buffer = EditorBuffer::new("| a | b |\n| --- | --- |\n| c | d |\n| e | f |");
    let block = table_block_at(&buffer, 0).expect("header must detect block");
    assert_eq!(block.header_row, 0);
    assert_eq!(block.delimiter_row, 1);
    assert_eq!(block.end_row, 3);
    assert_eq!(block.col_count, 2);
    assert_eq!(block.kind_at(0), Some(TableRowKind::Header));
    assert_eq!(block.kind_at(1), Some(TableRowKind::Delimiter));
    assert_eq!(block.kind_at(2), Some(TableRowKind::Body));
    assert!(block.contains(3));
    assert!(!block.contains(4));

    let bare = EditorBuffer::new("a | b\n--- | ---\n c | d ");
    let bare_block = table_block_at(&bare, 2).expect("bare pipes must detect");
    assert_eq!(bare_block.col_count, 2);

    let trailed = EditorBuffer::new("| a |\n| --- |\n| b |\nplain");
    assert!(table_block_at(&trailed, 3).is_none());
}

#[test]
fn markdown_test_table_rejects_setext_hr_fence_and_quote() {
    let setext = EditorBuffer::new("foo\n---\n");
    assert!(table_block_at(&setext, 0).is_none());
    assert!(table_block_at(&setext, 1).is_none());

    let hr = EditorBuffer::new("---\n");
    assert!(table_block_at(&hr, 0).is_none());

    let uneven = EditorBuffer::new("| a | b |\n| --- |\n| c | d |");
    assert!(table_block_at(&uneven, 0).is_none());

    let fence = EditorBuffer::new("```\n| a |\n| --- |\n```");
    assert!(table_block_at(&fence, 1).is_none());
    assert!(table_block_at(&fence, 2).is_none());

    let quote = EditorBuffer::new("> | a |\n> | --- |");
    assert!(table_block_at(&quote, 0).is_none());
}

#[test]
fn table_test_table_block_detection_and_kinds() {
    let buffer = EditorBuffer::new("| a | b |\n| --- | --- |\n| c | d |\n| e | f |");
    let block = table_block_at(&buffer, 0).expect("header must detect block");
    assert_eq!(block.header_row, 0);
    assert_eq!(block.delimiter_row, 1);
    assert_eq!(block.end_row, 3);
    assert_eq!(block.col_count, 2);
    assert_eq!(block.kind_at(0), Some(TableRowKind::Header));
    assert_eq!(block.kind_at(1), Some(TableRowKind::Delimiter));
    assert_eq!(block.kind_at(2), Some(TableRowKind::Body));
    assert!(block.contains(3));
    assert!(!block.contains(4));

    let bare = EditorBuffer::new("a | b\n--- | ---\n c | d ");
    let bare_block = table_block_at(&bare, 2).expect("bare pipes must detect");
    assert_eq!(bare_block.col_count, 2);

    let trailed = EditorBuffer::new("| a |\n| --- |\n| b |\nplain");
    assert!(table_block_at(&trailed, 3).is_none());
}

#[test]
fn table_test_table_rejects_setext_hr_fence_and_quote() {
    let setext = EditorBuffer::new("foo\n---\n");
    assert!(table_block_at(&setext, 0).is_none());
    assert!(table_block_at(&setext, 1).is_none());

    let hr = EditorBuffer::new("---\n");
    assert!(table_block_at(&hr, 0).is_none());

    let uneven = EditorBuffer::new("| a | b |\n| --- |\n| c | d |");
    assert!(table_block_at(&uneven, 0).is_none());

    let fence = EditorBuffer::new("```\n| a |\n| --- |\n```");
    assert!(table_block_at(&fence, 1).is_none());
    assert!(table_block_at(&fence, 2).is_none());

    let quote = EditorBuffer::new("> | a |\n> | --- |");
    assert!(table_block_at(&quote, 0).is_none());
}

#[test]
fn test_table_layout_measures_max_source_width() {
    let buffer = EditorBuffer::new("| a | b |\n| --- | --- |\n| looong | c |\n| d | e |");
    let layouts = table_layouts(&buffer);
    assert_eq!(layouts.len(), 1);
    assert_eq!(layouts[0].col_widths, vec![6, 3]);

    let two = EditorBuffer::new("| a |\n| --- |\n| b |\n\n| x | yy |\n| --- | --- |");
    assert_eq!(table_layouts(&two).len(), 2);
}

#[test]
fn test_fenced_index_queries_agree_with_single_shot() {
    let mut s = String::from("```rust\nfn f() {}\n```\n");
    for i in 0..200 {
        s.push_str(&format!("plain line {i}\n"));
    }
    s.push_str("| a | b |\n| --- | --- |\n| c | d |\n");
    s.push_str("```\n| x |\n| --- |\n```\n");
    let buffer = EditorBuffer::new(&s);
    let fences = fence_rows(&buffer);
    assert!(fences.contains(&0) && fences.contains(&2));
    assert_eq!(fences.len(), 4);

    let total = buffer.len_lines();
    for row in 0..total {
        assert_eq!(
            table_block_at_with_fences(&buffer, row, &fences),
            table_block_at(&buffer, row),
            "indexed query must agree with single-shot at row {row}"
        );
    }
    assert_eq!(
        table_layouts_with_fences(&buffer, &fences),
        table_layouts(&buffer),
        "indexed layouts must agree with single-shot layouts"
    );

    let table_row = 203;
    assert!(table_block_at(&buffer, table_row).is_some());
    assert!(!is_fenced_row(&fences, table_row));
    let fenced_row = total - 3;
    assert!(is_fenced_row(&fences, fenced_row));
    assert!(table_block_at(&buffer, fenced_row).is_none());
}

#[test]
fn test_display_width_columns() {
    assert_eq!(display_width(""), 0);
    assert_eq!(display_width("abc |"), 5);
    assert_eq!(display_width("日本"), 4);
    assert_eq!(display_width("a日本b"), 6);
}

#[test]
fn table_layout_uses_display_width_of_wide_cells() {
    let buffer = EditorBuffer::new("| 日本語 | b |\n| --- | --- |");
    let layouts = table_layouts(&buffer);
    assert_eq!(layouts[0].col_widths, vec![6, 3]);
}
