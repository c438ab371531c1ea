use twrite_core::buffer::EditorBuffer;
use twrite_core::coordinates::Point;
use twrite_core::error::EditorError;

#[test]
fn delete_removes_character_at_cursor() {
    let mut buffer = EditorBuffer::new("hello");
    buffer.set_cursor_offset(1);
    buffer.delete();
    assert_eq!(buffer.text().to_string(), "hllo");
    assert_eq!(buffer.cursor_offset(), 1);
}

#[test]
fn delete_at_end_does_nothing() {
    let mut buffer = EditorBuffer::new("hello");
    buffer.set_cursor_offset(5);
    buffer.delete();
    assert_eq!(buffer.text().to_string(), "hello");
    assert_eq!(buffer.cursor_offset(), 5);
}

#[test]
fn delete_from_empty_buffer_does_nothing() {
    let mut buffer = EditorBuffer::new("");
    buffer.delete();
    assert_eq!(buffer.text().to_string(), "");
    assert_eq!(buffer.cursor_offset(), 0);
}

#[test]
fn delete_handles_unicode() {
    let mut buffer = EditorBuffer::new("héllo");
    buffer.set_cursor_offset(1);
    assert_eq!(buffer.cursor_offset(), 1);
    assert_eq!(buffer.text().to_string(), "héllo");
    buffer.delete();
    assert_eq!(buffer.text().to_string(), "hllo");
    assert_eq!(buffer.cursor_offset(), 1);
}

#[test]
fn delete_records_undo_history() {
    let mut buffer = EditorBuffer::new("hello");
    buffer.set_cursor_offset(1);
    buffer.delete();
    buffer.undo();
    assert_eq!(buffer.text().to_string(), "hello");
    assert_eq!(buffer.cursor_offset(), 1);
}

#[test]
fn delete_can_be_redone() {
    let mut buffer = EditorBuffer::new("hello");
    buffer.set_cursor_offset(1);
    buffer.delete();
    buffer.undo();
    buffer.redo();
    assert_eq!(buffer.text().to_string(), "hllo");
    assert_eq!(buffer.cursor_offset(), 1);
}

#[test]
fn delete_does_not_move_cursor() {
    let mut buffer = EditorBuffer::new("hello");
    buffer.set_cursor_offset(2);
    buffer.delete();
    assert_eq!(buffer.text().to_string(), "helo");
    assert_eq!(buffer.cursor_offset(), 2);
}

#[test]
fn delete_removes_newline() {
    let mut buffer = EditorBuffer::new("hello\nworld");
    buffer.set_cursor_offset(5);
    buffer.delete();
    assert_eq!(buffer.text().to_string(), "helloworld");
    assert_eq!(buffer.cursor_offset(), 5);
}

#[test]
fn delete_range_removes_text_and_sets_cursor() {
    let mut buffer = EditorBuffer::new("hello world");
    buffer.delete_range(5..11);
    assert_eq!(buffer.text().to_string(), "hello");
    assert_eq!(buffer.cursor_offset(), 5);
    buffer.undo();
    assert_eq!(buffer.text().to_string(), "hello world");
    buffer.redo();
    assert_eq!(buffer.text().to_string(), "hello");
}

#[test]
fn delete_range_all() {
    let mut buffer = EditorBuffer::new("hello world");
    buffer.delete_range(0..buffer.len_bytes());
    assert_eq!(buffer.text().to_string(), "");
    assert_eq!(buffer.cursor_offset(), 0);
    buffer.undo();
    assert_eq!(buffer.text().to_string(), "hello world");
}

#[test]
fn replace_range_works_and_is_undoable() {
    let mut buffer = EditorBuffer::new("hello world");
    buffer.replace_range(6..11, "there");
    assert_eq!(buffer.text().to_string(), "hello there");
    assert_eq!(buffer.cursor_offset(), 11);
    buffer.undo();
    assert_eq!(buffer.text().to_string(), "hello world");
    buffer.redo();
    assert_eq!(buffer.text().to_string(), "hello there");
}

#[test]
fn delete_prev_word_removes_word_and_is_undoable() {
    let mut buffer = EditorBuffer::new("hello world");
    buffer.set_cursor_offset(11);
    assert!(buffer.delete_prev_word());
    assert_eq!(buffer.text().to_string(), "hello ");
    assert_eq!(buffer.cursor_offset(), 6);
    buffer.undo();
    assert_eq!(buffer.text().to_string(), "hello world");
    assert_eq!(buffer.cursor_offset(), 11);
    buffer.redo();
    assert_eq!(buffer.text().to_string(), "hello ");
    assert_eq!(buffer.cursor_offset(), 6);
}

#[test]
fn delete_next_word_removes_word_and_is_undoable() {
    let mut buffer = EditorBuffer::new("hello world");
    buffer.set_cursor_offset(0);
    assert!(buffer.delete_next_word());
    assert_eq!(buffer.text().to_string(), " world");
    assert_eq!(buffer.cursor_offset(), 0);
    buffer.undo();
    assert_eq!(buffer.text().to_string(), "hello world");
    assert_eq!(buffer.cursor_offset(), 0);
    buffer.redo();
    assert_eq!(buffer.text().to_string(), " world");
    assert_eq!(buffer.cursor_offset(), 0);
}

#[test]
fn insert_then_undo_restores_text_and_cursor() {
    let mut buffer = EditorBuffer::new("héllo");
    buffer.set_cursor_offset(3);
    buffer.insert("XY");
    assert_eq!(buffer.text().to_string(), "héXYllo");
    assert_eq!(buffer.cursor_offset(), 5);
    buffer.undo();
    assert_eq!(buffer.text().to_string(), "héllo");
    assert_eq!(buffer.cursor_offset(), 3);
    buffer.redo();
    assert_eq!(buffer.text().to_string(), "héXYllo");
    assert_eq!(buffer.cursor_offset(), 5);
}

#[test]
fn backspace_then_undo_restores() {
    let mut buffer = EditorBuffer::new("héllo");
    buffer.set_cursor_offset(3);
    buffer.backspace();
    assert_eq!(buffer.text().to_string(), "hllo");
    assert_eq!(buffer.cursor_offset(), 1);
    buffer.undo();
    assert_eq!(buffer.text().to_string(), "héllo");
    assert_eq!(buffer.cursor_offset(), 3);
    let mut start = EditorBuffer::new("abc");
    start.backspace();
    assert_eq!(start.text().to_string(), "abc");
}

#[test]
fn new_edit_clears_redo() {
    let mut buffer = EditorBuffer::new("ab");
    buffer.set_cursor_offset(2);
    buffer.insert("c");
    buffer.undo();
    buffer.insert("d");
    buffer.redo();
    assert_eq!(buffer.text().to_string(), "abd");
}

#[test]
fn undo_and_redo_on_empty_history_do_nothing() {
    let mut buffer = EditorBuffer::new("abc");
    buffer.set_cursor_offset(2);
    buffer.undo();
    buffer.redo();
    assert_eq!(buffer.text().to_string(), "abc");
    assert_eq!(buffer.cursor_offset(), 2);
}

#[test]
fn points_and_offsets_convert() {
    let buffer = EditorBuffer::new("ab\ncdé\nx");
    assert_eq!(buffer.len_lines(), 3);
    assert_eq!(buffer.len_bytes(), 9);
    assert_eq!(buffer.offset_to_point(4), Point::new(1, 1));
    assert_eq!(buffer.offset_to_point(100), Point::new(2, 1));
    assert_eq!(buffer.point_to_offset(Point::new(1, 10)), 8);
    assert_eq!(buffer.point_to_offset(Point::new(9, 0)), 9);
    assert_eq!(buffer.line_to_string(1), "cdé\n");
    assert_eq!(buffer.line_to_string(7), "");
}

#[test]
fn cursor_moves_by_characters_lines_and_words() {
    let mut buffer = EditorBuffer::new("héllo world\nsecond");
    buffer.move_cursor_right();
    buffer.move_cursor_right();
    assert_eq!(buffer.cursor_offset(), 3);
    buffer.move_cursor_left();
    assert_eq!(buffer.cursor_offset(), 1);
    buffer.move_cursor_down();
    assert_eq!(buffer.cursor_point(), Point::new(1, 1));
    buffer.move_cursor_up();
    assert_eq!(buffer.cursor_point(), Point::new(0, 1));
    buffer.move_cursor_line_end();
    assert_eq!(buffer.cursor_offset(), 12);
    buffer.move_cursor_line_start();
    assert_eq!(buffer.cursor_offset(), 0);
    buffer.move_cursor_next_word();
    assert_eq!(buffer.cursor_offset(), 6);
    buffer.move_cursor_prev_word();
    assert_eq!(buffer.cursor_offset(), 0);
    buffer.set_cursor_point(Point::new(1, 3));
    assert_eq!(buffer.cursor_offset(), 16);
}

#[test]
fn test_buffer_version_increments_on_edits() {
    let mut buffer = EditorBuffer::new("initial");
    assert_eq!(buffer.version(), 0);

    buffer.insert(" text");
    assert_eq!(buffer.version(), 1);

    buffer.backspace();
    assert_eq!(buffer.version(), 2);

    buffer.set_cursor_offset(0);
    buffer.delete();
    assert_eq!(buffer.version(), 3);

    buffer.undo();
    assert_eq!(buffer.version(), 4);

    buffer.redo();
    assert_eq!(buffer.version(), 5);
}

#[test]
fn test_error_handling_validation() {
    let mut buffer = EditorBuffer::new("hello\nworld");

    assert!(buffer.validate_offset(0).is_ok());
    assert!(buffer.validate_offset(11).is_ok());
    assert!(matches!(
        buffer.validate_offset(12),
        Err(EditorError::OutOfBounds {
            offset: 12,
            len: 11
        })
    ));

    assert!(buffer.validate_range(&(0..5)).is_ok());
    let (inverted_start, inverted_end) = (5, 3);
    assert!(matches!(
        buffer.validate_range(&(inverted_start..inverted_end)),
        Err(EditorError::InvalidRange { .. })
    ));
    assert!(matches!(
        buffer.validate_range(&(0..20)),
        Err(EditorError::InvalidRange { .. })
    ));

    assert_eq!(buffer.try_line_to_string(0).unwrap(), "hello\n");
    assert_eq!(buffer.try_line_to_string(1).unwrap(), "world");
    assert!(matches!(
        buffer.try_line_to_string(2),
        Err(EditorError::InvalidRow {
            row: 2,
            total_lines: 2
        })
    ));

    assert!(buffer.try_replace_range(0..5, "hi").is_ok());
    assert_eq!(buffer.text().to_string(), "hi\nworld");
    assert!(buffer.try_delete_range(0..3).is_ok());
    assert_eq!(buffer.text().to_string(), "world");
}

#[test]
fn version_stays_on_noops_and_cursor_moves() {
    let mut buffer = EditorBuffer::new("ab");
    buffer.backspace();
    buffer.move_cursor_right();
    buffer.undo();
    assert_eq!(buffer.version(), 0);
    buffer.set_cursor_offset(2);
    buffer.delete();
    assert_eq!(buffer.version(), 0);
    assert!(!buffer.can_undo());
    assert!(!buffer.can_redo());
    buffer.insert("c");
    assert!(buffer.can_undo());
    buffer.undo();
    assert!(buffer.can_redo());
}

#[test]
fn char_boundaries_follow_utf8_widths() {
    let buffer = EditorBuffer::new("aé€");
    let expected = [true, true, false, true, false, false, true, false];
    for (offset, want) in expected.iter().enumerate() {
        assert_eq!(buffer.is_char_boundary(offset), *want, "offset {offset}");
    }
}

#[test]
fn try_edits_refuse_split_characters_and_leave_text() {
    let mut buffer = EditorBuffer::new("é!");
    assert!(matches!(
        buffer.try_replace_range(1..2, "x"),
        Err(EditorError::InvalidCharBoundary { offset: 1 })
    ));
    assert!(matches!(
        buffer.try_delete_range(0..1),
        Err(EditorError::InvalidCharBoundary { offset: 1 })
    ));
    assert!(matches!(
        buffer.try_delete_range(2..1),
        Err(EditorError::InvalidRange { .. })
    ));
    assert_eq!(buffer.text().to_string(), "é!");
    assert_eq!(buffer.version(), 0);
}

#[test]
fn replace_many_keeps_cursor_offset_clamped() {
    let mut buffer = EditorBuffer::new("one two three");
    buffer.set_cursor_offset(13);
    let n = buffer.replace_many(vec![(0..3, "1".to_string()), (8..13, "3".to_string())]);
    assert_eq!(n, 2);
    assert_eq!(buffer.text().to_string(), "1 two 3");
    assert_eq!(buffer.cursor_offset(), 7);
    assert_eq!(buffer.version(), 1);
    buffer.undo();
    assert_eq!(buffer.text().to_string(), "one two three");
    assert_eq!(buffer.cursor_offset(), 13);
}
