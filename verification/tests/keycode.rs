use twrite_core::keycode::KeyCode;

#[test]
fn display_covers_named_keys() {
    assert_eq!(KeyCode::Enter.display(), "Enter");
    assert_eq!(KeyCode::Escape.display(), "Esc");
    assert_eq!(KeyCode::Backspace.display(), "Backspace");
    assert_eq!(KeyCode::Delete.display(), "Delete");
    assert_eq!(KeyCode::Up.display(), "↑");
    assert_eq!(KeyCode::Left.display(), "←");
    assert_eq!(KeyCode::F(5).display(), "F5");
    assert_eq!(KeyCode::F(12).display(), "F12");
}

#[test]
fn display_chars_verbatim() {
    assert_eq!(KeyCode::Char('a').display(), "a");
    assert_eq!(KeyCode::Char(' ').display(), " ");
    assert_eq!(KeyCode::Char('?').display(), "?");
}

#[test]
fn display_unidentified_is_placeholder() {
    assert_eq!(KeyCode::Unidentified.display(), "?");
}
