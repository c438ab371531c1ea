use ropey::Rope;
use twrite_core::movement::{
    classify_char, find_line_end, find_line_range_at, find_line_start, find_next_word_end,
    find_prev_word_start, find_word_range_at, CharKind,
};

#[test]
fn test_classify_char() {
    assert_eq!(classify_char('a'), CharKind::Word);
    assert_eq!(classify_char('Z'), CharKind::Word);
    assert_eq!(classify_char('0'), CharKind::Word);
    assert_eq!(classify_char('_'), CharKind::Word);
    assert_eq!(classify_char(' '), CharKind::Whitespace);
    assert_eq!(classify_char('\t'), CharKind::Whitespace);
    assert_eq!(classify_char('\n'), CharKind::Whitespace);
    assert_eq!(classify_char('.'), CharKind::Punctuation);
    assert_eq!(classify_char('('), CharKind::Punctuation);
    assert_eq!(classify_char(';'), CharKind::Punctuation);
}

#[test]
fn test_find_prev_word_start() {
    let text = Rope::from_str("hello world, foo.bar();");

    assert_eq!(find_prev_word_start(&text, 23), 20);
    assert_eq!(find_prev_word_start(&text, 20), 17);
    assert_eq!(find_prev_word_start(&text, 17), 16);
    assert_eq!(find_prev_word_start(&text, 16), 13);
    assert_eq!(find_prev_word_start(&text, 13), 11);
    assert_eq!(find_prev_word_start(&text, 11), 6);
    assert_eq!(find_prev_word_start(&text, 6), 0);
    assert_eq!(find_prev_word_start(&text, 0), 0);
}

#[test]
fn test_find_prev_word_multiple_spaces() {
    let text = Rope::from_str("hello    world");
    assert_eq!(find_prev_word_start(&text, 14), 9);
    assert_eq!(find_prev_word_start(&text, 9), 0);
}

#[test]
fn test_find_prev_word_across_lines() {
    let text = Rope::from_str("hello\nworld");
    assert_eq!(find_prev_word_start(&text, 11), 6);
    assert_eq!(find_prev_word_start(&text, 6), 5);
    assert_eq!(find_prev_word_start(&text, 5), 0);
}

#[test]
fn test_find_next_word_end() {
    let text = Rope::from_str("hello world, foo.bar();");

    assert_eq!(find_next_word_end(&text, 0), 5);
    assert_eq!(find_next_word_end(&text, 5), 11);
    assert_eq!(find_next_word_end(&text, 11), 12);
    assert_eq!(find_next_word_end(&text, 12), 16);
    assert_eq!(find_next_word_end(&text, 16), 17);
    assert_eq!(find_next_word_end(&text, 17), 20);
    assert_eq!(find_next_word_end(&text, 20), 23);
    assert_eq!(find_next_word_end(&text, 23), 23);
}

#[test]
fn test_find_next_word_multiple_spaces() {
    let text = Rope::from_str("hello    world");
    assert_eq!(find_next_word_end(&text, 0), 5);
    assert_eq!(find_next_word_end(&text, 5), 14);
}

#[test]
fn test_find_line_boundaries() {
    let text = Rope::from_str("first line\nsecond line\nthird");

    assert_eq!(find_line_start(&text, 5), 0);
    assert_eq!(find_line_end(&text, 5), 10);

    assert_eq!(find_line_start(&text, 15), 11);
    assert_eq!(find_line_end(&text, 15), 22);

    assert_eq!(find_line_start(&text, 25), 23);
    assert_eq!(find_line_end(&text, 25), 28);
}

#[test]
fn test_find_word_range_at() {
    let text = Rope::from_str("hello world, foo.bar();\nsecond line");

    assert_eq!(find_word_range_at(&text, 0), 0..5);
    assert_eq!(find_word_range_at(&text, 2), 0..5);
    assert_eq!(find_word_range_at(&text, 5), 0..5);

    assert_eq!(find_word_range_at(&text, 6), 6..11);
    assert_eq!(find_word_range_at(&text, 10), 6..11);

    assert_eq!(find_word_range_at(&text, 11), 11..12);

    assert_eq!(find_word_range_at(&text, 12), 11..12);

    assert_eq!(find_word_range_at(&text, 13), 13..16);
    assert_eq!(find_word_range_at(&text, 16), 16..17);
    assert_eq!(find_word_range_at(&text, 17), 17..20);
    assert_eq!(find_word_range_at(&text, 20), 20..23);
    assert_eq!(find_word_range_at(&text, 21), 20..23);
    assert_eq!(find_word_range_at(&text, 22), 20..23);

    assert_eq!(find_word_range_at(&text, 23), 20..23);

    assert_eq!(find_word_range_at(&text, 24), 24..30);

    let empty = Rope::from_str("");
    assert_eq!(find_word_range_at(&empty, 0), 0..0);

    let unicode = Rope::from_str("مرحبا بالعالم");
    assert_eq!(find_word_range_at(&unicode, 0), 0..10);
}

#[test]
fn test_find_word_range_multiple_spaces() {
    let text = Rope::from_str("hello   world");
    assert_eq!(find_word_range_at(&text, 5), 0..5);
    assert_eq!(find_word_range_at(&text, 6), 5..8);
    assert_eq!(find_word_range_at(&text, 7), 5..8);
    assert_eq!(find_word_range_at(&text, 8), 8..13);
}

#[test]
fn test_find_line_range_at() {
    let text = Rope::from_str("first line\nsecond line\nthird");

    assert_eq!(find_line_range_at(&text, 0), 0..11);
    assert_eq!(find_line_range_at(&text, 5), 0..11);
    assert_eq!(find_line_range_at(&text, 10), 0..11);

    assert_eq!(find_line_range_at(&text, 11), 11..23);
    assert_eq!(find_line_range_at(&text, 15), 11..23);

    assert_eq!(find_line_range_at(&text, 23), 23..28);
    assert_eq!(find_line_range_at(&text, 27), 23..28);
    assert_eq!(find_line_range_at(&text, 28), 23..28);

    let crlf = Rope::from_str("first\r\nsecond\r\n");
    assert_eq!(find_line_range_at(&crlf, 2), 0..7);
    assert_eq!(find_line_range_at(&crlf, 8), 7..15);

    let empty = Rope::from_str("");
    assert_eq!(find_line_range_at(&empty, 0), 0..0);
}

#[test]
fn line_range_covers_crlf_and_unicode_breaks() {
    let text = Rope::from_str("a\u{2028}b");
    assert_eq!(find_line_range_at(&text, 0), 0..4);
    assert_eq!(find_line_range_at(&text, 4), 4..5);
}
