//! Structured key identity for hooks, hints and keymaps.
use vstd::prelude::*;
use crate::text::{chars_to_string, decimal_digits, push_decimal};

verus! {

/// A single key; one `Char` variant absorbs all printable characters.
#[derive(Debug, Clone, Copy, PartialEq, Eq, Hash, Structural)]
pub enum KeyCode {
    /// Layout-aware produced character.
    Char(char),
    /// The Enter / Return key.
    Enter,
    /// The Tab key.
    Tab,
    /// The Escape key.
    Escape,
    /// The Backspace key.
    Backspace,
    /// The Delete key.
    Delete,
    /// The Insert key.
    Insert,
    /// Arrow up.
    Up,
    /// Arrow down.
    Down,
    /// Arrow left.
    Left,
    /// Arrow right.
    Right,
    /// The Home key.
    Home,
    /// The End key.
    End,
    /// The Page Up key.
    PageUp,
    /// The Page Down key.
    PageDown,
    /// A function key (`F(1)` is F1).
    F(u8),
    /// A platform key with no mapping.
    Unidentified,
}

/// Canonical display text of a key.
pub open spec fn key_display(k: KeyCode) -> Seq<char> {
    match k {
        KeyCode::Char(c) => seq![c],
        KeyCode::Enter => seq!['E', 'n', 't', 'e', 'r'],
        KeyCode::Tab => seq!['T', 'a', 'b'],
        KeyCode::Escape => seq!['E', 's', 'c'],
        KeyCode::Backspace => seq!['B', 'a', 'c', 'k', 's', 'p', 'a', 'c', 'e'],
        KeyCode::Delete => seq!['D', 'e', 'l', 'e', 't', 'e'],
        KeyCode::Insert => seq!['I', 'n', 's', 'e', 'r', 't'],
        KeyCode::Up => seq!['\u{2191}'],
        KeyCode::Down => seq!['\u{2193}'],
        KeyCode::Left => seq!['\u{2190}'],
        KeyCode::Right => seq!['\u{2192}'],
        KeyCode::Home => seq!['H', 'o', 'm', 'e'],
        KeyCode::End => seq!['E', 'n', 'd'],
        KeyCode::PageUp => seq!['P', 'g', 'U', 'p'],
        KeyCode::PageDown => seq!['P', 'g', 'D', 'n'],
        KeyCode::F(n) => seq!['F'] + decimal_digits(n as nat),
        KeyCode::Unidentified => seq!['?'],
    }
}

impl KeyCode {
    /// Canonical display form: arrows as glyphs, well-known names as words,
    /// `F(n)` as `Fn`, characters verbatim, unidentified keys as `?`.
    pub fn display(&self) -> (s: String)
        ensures
            s@ == key_display(*self),
    {
        let v: Vec<char> = match self {
            KeyCode::Char(c) => vec![*c],
            KeyCode::Enter => vec!['E', 'n', 't', 'e', 'r'],
            KeyCode::Tab => vec!['T', 'a', 'b'],
            KeyCode::Escape => vec!['E', 's', 'c'],
            KeyCode::Backspace => vec!['B', 'a', 'c', 'k', 's', 'p', 'a', 'c', 'e'],
            KeyCode::Delete => vec!['D', 'e', 'l', 'e', 't', 'e'],
            KeyCode::Insert => vec!['I', 'n', 's', 'e', 'r', 't'],
            KeyCode::Up => vec!['\u{2191}'],
            KeyCode::Down => vec!['\u{2193}'],
            KeyCode::Left => vec!['\u{2190}'],
            KeyCode::Right => vec!['\u{2192}'],
            KeyCode::Home => vec!['H', 'o', 'm', 'e'],
            KeyCode::End => vec!['E', 'n', 'd'],
            KeyCode::PageUp => vec!['P', 'g', 'U', 'p'],
            KeyCode::PageDown => vec!['P', 'g', 'D', 'n'],
            KeyCode::F(n) => {
                let mut v = vec!['F'];
                push_decimal(&mut v, *n as usize);
                v
            },
            KeyCode::Unidentified => vec!['?'],
        };
        proof {
            assert(v@ =~= key_display(*self));
        }
        chars_to_string(&v)
    }
}

} // verus!
