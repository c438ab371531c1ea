use twrite_core::buffer::EditorBuffer;
use twrite_core::folding::FoldRange;
use twrite_core::markdown::config::MarkdownHighlighter;
use twrite_core::markdown::folding::{markdown_fold_ranges, scan_frontmatter};

fn fold(buffer_text: &str) -> Vec<FoldRange> {
    let buffer = EditorBuffer::new(buffer_text);
    markdown_fold_ranges(&buffer, &[], None)
}

fn ranges_contains(ranges: &[FoldRange], start: usize, end: usize) -> bool {
    ranges.contains(&FoldRange { start_row: start, end_row: end })
}

#[test]
fn heading_sections_nest_by_level() {
    let ranges = fold("# H1\na\n## H2\nb\n# H1b\n");
    assert!(ranges_contains(&ranges, 0, 3));
    assert!(ranges_contains(&ranges, 2, 3));
    assert!(!ranges.iter().any(|range| range.start_row == 4));
}

#[test]
fn single_row_sections_emit_nothing() {
    assert!(fold("# Solo\n").is_empty());
    assert!(fold("# A\n# B\n").is_empty());
}

#[test]
fn trailing_blanks_trim_off() {
    let ranges = fold("# H\ntext\n\n\n");
    assert_eq!(ranges, vec![FoldRange { start_row: 0, end_row: 1 }]);
}

#[test]
fn list_subtrees_nest_by_indent() {
    let ranges = fold("- a\n  - b\n    - c\n  - d\n- e\n");
    assert!(ranges_contains(&ranges, 0, 3));
    assert!(ranges_contains(&ranges, 1, 2));
    assert!(!ranges.iter().any(|range| range.start_row == 4));
}

#[test]
fn ordered_and_task_items_fold() {
    // "1. one" stands alone; "2. two" plus its continuation folds.
    let ranges = fold("1. one\n2. two\n   continued\n3. three\n");
    assert!(ranges_contains(&ranges, 1, 2));
    assert!(!ranges.iter().any(|range| range.start_row == 0));
    assert!(!ranges.iter().any(|range| range.start_row == 3));
    let tasks = fold("- [ ] a\n  detail\n- [ ] b\n");
    assert!(ranges_contains(&tasks, 0, 1));
}

#[test]
fn lazy_continuation_absorbs() {
    // Same-indent non-list text continues the item instead of ending it.
    let ranges = fold("- a\ncontinued\n- b\n");
    assert!(ranges_contains(&ranges, 0, 1));
}

#[test]
fn headings_terminate_lists() {
    let ranges = fold("- a\n  - b\n# H\ntext\n");
    assert!(ranges_contains(&ranges, 0, 1));
    assert!(ranges_contains(&ranges, 2, 3));
}

#[test]
fn fenced_rows_never_open_folds() {
    let buffer = EditorBuffer::new("# H\n```\n# not a heading\n- not a list\n```\ntext\n");
    let ranges = markdown_fold_ranges(&buffer, &[1, 4], None);
    assert_eq!(ranges, vec![FoldRange { start_row: 0, end_row: 5 }]);
}

#[test]
fn frontmatter_rows_never_open_folds() {
    let buffer = EditorBuffer::new("---\n# not a heading\n---\n# Real\ntext\n");
    let ranges = markdown_fold_ranges(&buffer, &[], Some(&(0..3)));
    assert_eq!(ranges, vec![FoldRange { start_row: 3, end_row: 4 }]);
}

#[test]
fn fold_ranges_come_sorted_by_start() {
    let ranges = fold("# A\n- x\n  - y\n  z\n## B\ntext\n");
    assert_eq!(
        ranges,
        vec![
            FoldRange { start_row: 0, end_row: 5 },
            FoldRange { start_row: 1, end_row: 3 },
            FoldRange { start_row: 2, end_row: 3 },
            FoldRange { start_row: 4, end_row: 5 },
        ]
    );
    for w in ranges.windows(2) {
        assert!(w[0].start_row < w[1].start_row);
    }
}

#[test]
fn frontmatter_scan_and_highlighter_folds() {
    let buffer = EditorBuffer::new("---\ntitle: x\n...\n# Real\ntext\n");
    assert_eq!(scan_frontmatter(&buffer, &[]), Some(0..3));
    let unclosed = EditorBuffer::new("---\ntitle: x\n");
    assert_eq!(scan_frontmatter(&unclosed, &[]), None);
    let fenced = EditorBuffer::new("---\n```\n---\n```\n---\n");
    assert_eq!(scan_frontmatter(&fenced, &[1, 3]), Some(0..5));

    let highlighter = MarkdownHighlighter::new();
    let doc = EditorBuffer::new("---\n# meta\n---\n# Real\ntext\n```\n# code\n```\n");
    assert_eq!(highlighter.foldable_ranges(&doc), vec![FoldRange { start_row: 3, end_row: 7 }]);
    assert!(highlighter.is_in_fenced_code_block(&doc, 6));
    assert!(!highlighter.is_in_fenced_code_block(&doc, 4));
}
