//! Key events and hook outcomes shared by the interactive components.
use vstd::prelude::*;
use crate::buffer::{EditorBuffer, insert_at, remove_range};
use crate::prompt::PromptState;
use crate::rope_text::{
    char_of_byte, is_char_boundary, lemma_char_of_byte, lemma_char_of_byte_at, lemma_char_of_byte_within,
    rope_byte_slice_string, rope_byte_to_char, rope_char, rope_len_bytes, rope_text,
};
use crate::selection::Selection;
use crate::text::{
    byte_at, byte_len, char_len_utf8, char_width, chars_to_string, lemma_byte_at_len, lemma_byte_at_mono,
    lemma_byte_at_step, lemma_byte_len_concat, str_chars, str_eq,
};
use ropey::Rope;

verus! {

/// Keyboard modifier keys state.
#[derive(Debug, Clone, Copy, PartialEq, Eq, Default, Structural)]
pub struct Modifiers {
    /// Whether the Control key is pressed.
    pub ctrl: bool,
    /// Whether the Alt key is pressed.
    pub alt: bool,
    /// Whether the Shift key is pressed.
    pub shift: bool,
    /// Whether the Meta / Command / Windows key is pressed.
    pub meta: bool,
}

impl Modifiers {
    /// Creates an empty modifier set with all modifiers disabled.
    pub fn empty() -> (m: Self)
        ensures
            !m.ctrl && !m.alt && !m.shift && !m.meta,
    {
        Modifiers { ctrl: false, alt: false, shift: false, meta: false }
    }
}

/// A normalized keyboard event passed to editor hooks.
#[derive(Debug, Clone, PartialEq, Eq)]
pub struct KeyEvent {
    /// The normalized key string (e.g. "a", "enter", "backspace", "escape").
    pub key: String,
    /// The active keyboard modifiers during the key event.
    pub modifiers: Modifiers,
}

impl KeyEvent {
    /// Creates a key event without modifiers.
    pub fn plain(key: &str) -> (e: Self)
        ensures
            e.key@ == key@,
            !e.modifiers.ctrl && !e.modifiers.alt && !e.modifiers.shift && !e.modifiers.meta,
    {
        KeyEvent { key: key.to_owned(), modifiers: Modifiers::empty() }
    }
}

/// The visual style of the text cursor.
#[derive(Debug, Clone, Copy, PartialEq, Eq, Default, Structural)]
pub enum CursorStyle {
    /// Vertical bar / I-beam cursor.
    #[default]
    Bar,
    /// Solid full-character block cursor.
    Block,
    /// Horizontal underline cursor.
    Underline,
    /// Invisible cursor.
    Hidden,
}

/// The outcome of an editor hook handling an event.
#[derive(Debug, Clone, Copy, PartialEq, Eq, Structural)]
pub enum HookOutcome {
    /// The hook handled the event; propagation stops.
    Consumed,
    /// The hook did not consume the event; propagation continues.
    PassThrough,
}

/// Whether no modifier other than shift is held.
pub open spec fn unmodified(m: Modifiers) -> bool {
    !m.ctrl && !m.alt && !m.meta
}

/// App-level requests a hook cannot fulfil on its own (file I/O, quit).
#[derive(Debug, Clone, PartialEq, Eq)]
pub enum HookEffect {
    /// Save the buffer (`None` = current path).
    Save {
        /// Explicit destination path, if any.
        path: Option<String>,
    },
    /// Load a file into the buffer, resetting undo history.
    Load {
        /// File path to load.
        path: String,
    },
    /// Request application exit.
    Quit {
        /// Skip dirty-buffer checks.
        force: bool,
    },
    /// Show a transient message.
    Message(String),
    /// Follow a wikilink: the host resolves the target against its storage.
    FollowLink {
        /// Target note name.
        target: String,
        /// Heading within the note, if any.
        fragment: Option<String>,
        /// Display alias, if any.
        label: Option<String>,
    },
}

/// Characters of a key name, with the guarantee that they fit in memory.
pub fn key_chars(e: &KeyEvent) -> (v: Vec<char>)
    ensures
        v@ == e.key@,
        crate::text::byte_len(v@) <= usize::MAX,
{
    str_chars(e.key.as_str())
}

/// The mutable editing context handed to hooks during an event: the
/// buffer, the selection, the cursor style, the shared prompt and the queue
/// of app-level effects.
pub struct HookContext<'a> {
    /// The text buffer.
    pub buffer: &'a mut EditorBuffer,
    /// The active selection, if any.
    pub selection: &'a mut Option<Selection>,
    /// The cursor's visual style.
    pub cursor_style: &'a mut CursorStyle,
    /// The shared headless prompt.
    pub prompt: &'a mut PromptState,
    /// App-level requests for the host to drain after the event.
    pub effects: &'a mut Vec<HookEffect>,
}

impl<'a> HookContext<'a> {
    /// Bundles the pieces of editor state a hook may change.
    pub fn new(
        buffer: &'a mut EditorBuffer,
        selection: &'a mut Option<Selection>,
        cursor_style: &'a mut CursorStyle,
        prompt: &'a mut PromptState,
        effects: &'a mut Vec<HookEffect>,
    ) -> (ctx: Self)
        ensures
            *ctx.buffer == *old(buffer),
            *ctx.selection == *old(selection),
            *ctx.cursor_style == *old(cursor_style),
            *ctx.prompt == *old(prompt),
            *ctx.effects == *old(effects),
            *final(buffer) == *final(ctx.buffer),
            *final(selection) == *final(ctx.selection),
            *final(cursor_style) == *final(ctx.cursor_style),
            *final(prompt) == *final(ctx.prompt),
            *final(effects) == *final(ctx.effects),
    {
        HookContext { buffer, selection, cursor_style, prompt, effects }
    }
}

/// The editor state a hook can work on: the cursor sits on a character
/// boundary within the text, a selection's ends are character boundaries,
/// and the prompt is well-formed.
pub open spec fn ctx_ready(buffer: EditorBuffer, selection: Option<Selection>, prompt: PromptState) -> bool {
    &&& buffer.cursor_view() <= byte_len(buffer.text_view())
    &&& is_char_boundary(buffer.text_view(), buffer.cursor_view())
    &&& selection matches Some(s) ==> is_char_boundary(buffer.text_view(), s.start_spec() as nat)
        && is_char_boundary(buffer.text_view(), s.end_spec() as nat)
    &&& prompt.wf()
}

/// Intercepts input events, changes buffer state and extends the editor's
/// behaviour. Every method defaults to doing nothing.
pub trait EditorHook {
    /// Intercepts a key press before the editor's own handling.
    fn on_key(&mut self, ctx: &mut HookContext, event: &KeyEvent) -> (outcome: HookOutcome)
        requires
            ctx_ready(*old(ctx).buffer, *old(ctx).selection, *old(ctx).prompt),
            byte_len(old(ctx).prompt@.input) + byte_len(event.key@) + 1 <= usize::MAX,
        default_ensures
            outcome == HookOutcome::PassThrough,
            *final(ctx).buffer == *old(ctx).buffer,
            *final(ctx).selection == *old(ctx).selection,
            *final(ctx).cursor_style == *old(ctx).cursor_style,
            *final(ctx).prompt == *old(ctx).prompt,
            *final(ctx).effects == *old(ctx).effects,
    {
        HookOutcome::PassThrough
    }

    /// Intercepts text insertion before it reaches the buffer.
    fn before_insert(&mut self, ctx: &mut HookContext, text: &str) -> (outcome: HookOutcome)
        requires
            ctx_ready(*old(ctx).buffer, *old(ctx).selection, *old(ctx).prompt),
        default_ensures
            outcome == HookOutcome::PassThrough,
            *final(ctx).buffer == *old(ctx).buffer,
            *final(ctx).selection == *old(ctx).selection,
            *final(ctx).cursor_style == *old(ctx).cursor_style,
            *final(ctx).prompt == *old(ctx).prompt,
            *final(ctx).effects == *old(ctx).effects,
    {
        HookOutcome::PassThrough
    }

    /// Runs after any buffer mutation (typing, deletion, paste, undo, redo).
    fn after_edit(&mut self, buffer: &mut EditorBuffer) {
    }

    /// Runs whenever the cursor or the selection changes.
    fn on_selection_change(&mut self, buffer: &EditorBuffer, selection: Option<&Selection>) {
    }

    /// Intercepts a mouse click at a buffer row and a byte column within
    /// that row's text.
    fn on_click(&mut self, ctx: &mut HookContext, row: usize, col: usize) -> (outcome: HookOutcome)
        requires
            ctx_ready(*old(ctx).buffer, *old(ctx).selection, *old(ctx).prompt),
        default_ensures
            outcome == HookOutcome::PassThrough,
            *final(ctx).buffer == *old(ctx).buffer,
            *final(ctx).selection == *old(ctx).selection,
            *final(ctx).cursor_style == *old(ctx).cursor_style,
            *final(ctx).prompt == *old(ctx).prompt,
            *final(ctx).effects == *old(ctx).effects,
    {
        HookOutcome::PassThrough
    }

    /// A human-readable status or mode name, if any.
    fn status_text(&self) -> (s: Option<&str>)
        default_ensures
            s.is_none(),
    {
        None
    }
}

/// The character at byte `b` (the one that byte belongs to); `None` at or
/// past the end.
pub open spec fn char_at_byte(t: Seq<char>, b: nat) -> Option<char> {
    if b < byte_len(t) {
        Some(t[char_of_byte(t, b) as int])
    } else {
        None
    }
}

/// The character the byte at `offset` belongs to, `None` past the end.
pub fn char_at_byte_offset(rope: &Rope, offset: usize) -> (c: Option<char>)
    ensures
        c == char_at_byte(rope_text(*rope), offset as nat),
{
    if offset >= rope_len_bytes(rope) {
        return None;
    }
    let ci = rope_byte_to_char(rope, offset);
    proof {
        let t = rope_text(*rope);
        lemma_char_of_byte(t, offset as nat);
        if ci == t.len() {
            lemma_byte_at_len(t);
        }
    }
    Some(rope_char(rope, ci))
}

/// The closing character auto-inserted after an opening one.
pub open spec fn closing_of(c: char) -> Option<char> {
    if c == '(' {
        Some(')')
    } else if c == '[' {
        Some(']')
    } else if c == '{' {
        Some('}')
    } else if c == '"' {
        Some('"')
    } else if c == '\'' {
        Some('\'')
    } else if c == '`' {
        Some('`')
    } else {
        None
    }
}

/// Quote characters, which step over an identical next character.
pub open spec fn is_quote(c: char) -> bool {
    c == '"' || c == '\'' || c == '`'
}

/// Closing brackets, which step over an identical next character.
pub open spec fn is_closer(c: char) -> bool {
    c == ')' || c == ']' || c == '}'
}

/// Built-in hook that inserts closing quotes, brackets and braces, wraps a
/// selection in a pair, steps over closing characters and deletes empty
/// pairs together.
#[derive(Debug, Clone, Default)]
pub struct AutoPairsHook;

impl AutoPairsHook {
    /// Creates a new auto-pairs hook.
    pub fn new() -> (h: Self)
        ensures
            h == AutoPairsHook,
    {
        AutoPairsHook
    }

    /// The closing character for an opening one.
    pub fn matching_close(c: char) -> (r: Option<char>)
        ensures
            r == closing_of(c),
    {
        if c == '(' {
            Some(')')
        } else if c == '[' {
            Some(']')
        } else if c == '{' {
            Some('}')
        } else if c == '"' {
            Some('"')
        } else if c == '\'' {
            Some('\'')
        } else if c == '`' {
            Some('`')
        } else {
            None
        }
    }

    /// Whether `open` followed by `close` is an auto-inserted pair.
    pub fn is_pair(open: char, close: char) -> (b: bool)
        ensures
            b == (closing_of(open) == Some(close)),
    {
        match Self::matching_close(open) {
            Some(c) => c == close,
            None => false,
        }
    }
}

/// The text of an auto-pair wrap: the opening character, the text, the
/// closing character.
pub open spec fn wrapped(open: char, inner: Seq<char>, close: char) -> Seq<char> {
    seq![open] + inner + seq![close]
}

/// Inserts `open` and `close` at the cursor as one edit and leaves the
/// cursor between them.
fn insert_pair(buffer: &mut EditorBuffer, open: char, close: char)
    requires
        old(buffer).cursor_view() <= byte_len(old(buffer).text_view()),
        byte_len(old(buffer).text_view()) + char_width(open) + char_width(close) <= usize::MAX,
        char_width(close) == 1,
    ensures
        ({
            let t = old(buffer).text_view();
            let c = char_of_byte(t, old(buffer).cursor_view());
            &&& final(buffer).text_view() == insert_at(t, c, seq![open, close])
            &&& final(buffer).cursor_view() == byte_at(t, c as int) + char_width(open)
        }),
{
    let ghost t = buffer.text_view();
    let ghost cur = buffer.cursor_view();
    let mut v: Vec<char> = Vec::new();
    v.push(open);
    v.push(close);
    let s = chars_to_string(&v);
    proof {
        assert(s@ =~= seq![open, close]);
        assert(seq![open, close].drop_last() =~= seq![open]);
        assert(seq![open].drop_last() =~= Seq::<char>::empty());
        assert(byte_len(seq![open, close]) == char_width(open) + char_width(close)) by {
            reveal_with_fuel(byte_len, 3);
        }
    }
    buffer.insert(s.as_str());
    proof {
        let c = char_of_byte(t, cur);
        let t2 = buffer.text_view();
        lemma_char_of_byte(t, cur);
        assert(t2.take(c as int) =~= t.take(c as int));
        assert(t2.take(c + 1int) =~= t.take(c as int).push(open));
        assert(t2.take(c + 2int) =~= t.take(c as int).push(open).push(close));
        assert(t2.take(c + 1int).drop_last() =~= t.take(c as int));
        assert(t2.take(c + 2int).drop_last() =~= t2.take(c + 1int));
        let b0 = byte_at(t, c as int);
        assert(byte_at(t2, c + 1int) == b0 + char_width(open));
        assert(byte_at(t2, c + 2int) == b0 + char_width(open) + 1);
        let cur2 = cur + char_width(open) + 1;
        if c < t.len() {
            lemma_byte_at_step(t, c as int);
            assert(t2[c + 2int] == t[c as int]);
            lemma_byte_at_step(t2, c + 2int);
            lemma_byte_at_mono(t2, c + 3int, t2.len() as int);
            assert(t2.take(c + 3int).drop_last() =~= t2.take(c + 2int));
            lemma_char_of_byte_within(t2, cur2, c + 2);
        } else {
            lemma_byte_at_len(t);
            assert(t2.take(c + 2int) =~= t2);
            lemma_byte_at_len(t2);
            lemma_char_of_byte_at(t2, c + 2);
        }
        lemma_byte_at_mono(t2, c + 2int, t2.len() as int);
        lemma_byte_at_len(t2);
        assert(buffer.cursor_view() == cur2);
        assert(char_of_byte(t2, cur2) == c + 2);
        assert(cur2 <= byte_len(t2));
    }
    buffer.move_cursor_left();
}

impl EditorHook for AutoPairsHook {
    /// Auto-pairs keymap, for keys without Ctrl, Alt or Meta:
    /// - `backspace` between an empty pair (no selection) deletes both;
    /// - an opening character wraps the selection in the pair, or steps
    ///   over an identical quote after the cursor, or inserts the pair
    ///   with the cursor between;
    /// - a closing bracket steps over an identical next character.
    ///
    /// An edit whose result would not fit in the address space is passed
    /// through.
    fn on_key(&mut self, ctx: &mut HookContext, event: &KeyEvent) -> (outcome: HookOutcome)
        ensures
            ({
                let t = old(ctx).buffer.text_view();
                let cur = old(ctx).buffer.cursor_view();
                let c = char_of_byte(t, cur);
                let key = event.key@;
                let m = event.modifiers;
                let unchanged = *final(ctx).buffer == *old(ctx).buffer && *final(ctx).selection
                    == *old(ctx).selection;
                &&& *final(ctx).cursor_style == *old(ctx).cursor_style
                &&& *final(ctx).prompt == *old(ctx).prompt
                &&& *final(ctx).effects == *old(ctx).effects
                &&& if !unmodified(m) {
                    outcome == HookOutcome::PassThrough && unchanged
                } else if key == "backspace"@ && old(ctx).selection.is_none() {
                    if 0 < cur < byte_len(t) && (char_at_byte(t, (cur - 1) as nat) matches Some(p)
                        && closing_of(p) == char_at_byte(t, cur)) {
                        &&& outcome == HookOutcome::Consumed
                        &&& 1 <= c < t.len()
                        &&& final(ctx).buffer.text_view() == remove_range(t, (c - 1) as nat, c + 1)
                        &&& final(ctx).buffer.cursor_view() == cur - 1
                        &&& *final(ctx).selection == *old(ctx).selection
                    } else {
                        outcome == HookOutcome::PassThrough && unchanged
                    }
                } else if key.len() == 1 && closing_of(key[0]) is Some {
                    let ch = key[0];
                    let close = closing_of(ch)->0;
                    match *old(ctx).selection {
                        Some(s) => {
                            let cs = char_of_byte(t, s.start_spec() as nat);
                            let ce = char_of_byte(t, s.end_spec() as nat);
                            let w = wrapped(ch, t.subrange(cs as int, ce as int), close);
                            if byte_len(t) + byte_len(w) <= usize::MAX {
                                &&& outcome == HookOutcome::Consumed
                                &&& final(ctx).buffer.text_view() == insert_at(
                                    remove_range(t, cs, ce),
                                    cs,
                                    w,
                                )
                                &&& final(ctx).buffer.cursor_view() == s.start_spec() + byte_len(w)
                                &&& *final(ctx).selection == Some(
                                    Selection::range_spec(
                                        (s.start_spec() + 1) as usize,
                                        (s.end_spec() + 1) as usize,
                                    ),
                                )
                            } else {
                                outcome == HookOutcome::PassThrough && unchanged
                            }
                        },
                        None => if is_quote(ch) && char_at_byte(t, cur) == Some(ch) {
                            &&& outcome == HookOutcome::Consumed
                            &&& final(ctx).buffer.text_view() == t
                            &&& final(ctx).buffer.cursor_view() == byte_at(t, c + 1int)
                            &&& *final(ctx).selection == *old(ctx).selection
                        } else if byte_len(t) + char_width(ch) + 1 <= usize::MAX {
                            &&& outcome == HookOutcome::Consumed
                            &&& final(ctx).buffer.text_view() == insert_at(t, c, seq![ch, close])
                            &&& final(ctx).buffer.cursor_view() == byte_at(t, c as int) + char_width(
                                ch,
                            )
                            &&& *final(ctx).selection == *old(ctx).selection
                        } else {
                            outcome == HookOutcome::PassThrough && unchanged
                        },
                    }
                } else if key.len() == 1 && is_closer(key[0]) && char_at_byte(t, cur) == Some(
                    key[0],
                ) {
                    &&& outcome == HookOutcome::Consumed
                    &&& final(ctx).buffer.text_view() == t
                    &&& final(ctx).buffer.cursor_view() == byte_at(t, c + 1int)
                    &&& *final(ctx).selection == *old(ctx).selection
                } else {
                    outcome == HookOutcome::PassThrough && unchanged
                }
            }),
    {
        let m = event.modifiers;
        if m.ctrl || m.alt || m.meta {
            return HookOutcome::PassThrough;
        }
        let ghost t = ctx.buffer.text_view();
        let ghost cur = ctx.buffer.cursor_view();
        if str_eq(event.key.as_str(), "backspace") && ctx.selection.is_none() {
            let cursor = ctx.buffer.cursor_offset();
            if cursor > 0 && cursor < ctx.buffer.len_bytes() {
                let prev_char = char_at_byte_offset(ctx.buffer.text(), cursor - 1);
                let next_char = char_at_byte_offset(ctx.buffer.text(), cursor);
                match (prev_char, next_char) {
                    (Some(p), Some(n)) => {
                        if Self::is_pair(p, n) {
                            proof {
                                let cp = char_of_byte(t, (cursor - 1) as nat);
                                lemma_char_of_byte(t, (cursor - 1) as nat);
                                lemma_byte_at_len(t);
                                lemma_byte_at_step(t, cp as int);
                                lemma_char_of_byte_at(t, cp + 1);
                                assert(char_of_byte(t, cur) == cp + 1);
                                lemma_char_of_byte(t, cur);
                                assert(cp + 1 < t.len());
                            }
                            ctx.buffer.delete();
                            proof {
                                let cp = char_of_byte(t, (cursor - 1) as nat);
                                let t1 = ctx.buffer.text_view();
                                assert(t1.take(cp + 1int) =~= t.take(cp + 1int));
                                assert(byte_at(t1, cp + 1int) == cur);
                                assert(is_char_boundary(t1, cur));
                                lemma_char_of_byte_at(t1, cp + 1);
                                assert(t1.take(cp as int) =~= t.take(cp as int));
                            }
                            ctx.buffer.backspace();
                            proof {
                                let cp = char_of_byte(t, (cursor - 1) as nat);
                                let t1 = remove_range(t, cp + 1, cp + 2);
                                assert(remove_range(t1, cp, cp + 1) =~= remove_range(t, cp, cp + 2));
                            }
                            return HookOutcome::Consumed;
                        }
                    },
                    _ => {},
                }
            }
            return HookOutcome::PassThrough;
        }
        let key = str_chars(event.key.as_str());
        if key.len() == 1 {
            let ch = key[0];
            match Self::matching_close(ch) {
                Some(close) => {
                    match *ctx.selection {
                        Some(sel) => {
                            let range = sel.byte_range();
                            let len = ctx.buffer.len_bytes();
                            proof {
                                crate::buffer::lemma_boundary(t, range.start as nat);
                                crate::buffer::lemma_boundary(t, range.end as nat);
                            }
                            let inner = rope_byte_slice_string(ctx.buffer.text(), range.start, range.end);
                            let inner_len = crate::text::str_byte_len(inner.as_str());
                            let open_len = char_len_utf8(ch);
                            if inner_len > usize::MAX - len || open_len + 1 > usize::MAX - len - inner_len {
                                proof {
                                    let cs = char_of_byte(t, range.start as nat);
                                    let ce = char_of_byte(t, range.end as nat);
                                    let w = wrapped(ch, t.subrange(cs as int, ce as int), close);
                                    lemma_byte_len_concat(seq![ch], inner@);
                                    lemma_byte_len_concat(seq![ch] + inner@, seq![close]);
                                    crate::text::lemma_byte_len_single(ch);
                                    crate::text::lemma_byte_len_single(close);
                                }
                                return HookOutcome::PassThrough;
                            }
                            let mut w: Vec<char> = Vec::new();
                            w.push(ch);
                            let inner_chars = str_chars(inner.as_str());
                            crate::text::push_all(&mut w, &inner_chars);
                            w.push(close);
                            let ws = chars_to_string(&w);
                            proof {
                                assert(w@ =~= wrapped(ch, inner@, close));
                                lemma_byte_len_concat(seq![ch], inner@);
                                lemma_byte_len_concat(seq![ch] + inner@, seq![close]);
                                crate::text::lemma_byte_len_single(ch);
                                crate::text::lemma_byte_len_single(close);
                                if range.start == range.end {
                                    lemma_char_of_byte(t, range.start as nat);
                                    assert(remove_range(t, char_of_byte(t, range.start as nat), char_of_byte(t, range.start as nat)) =~= t);
                                }
                            }
                            *ctx.selection = None;
                            ctx.buffer.replace_range(range.start..range.end, ws.as_str());
                            *ctx.selection = Some(Selection::range(range.start + 1, range.end + 1));
                            return HookOutcome::Consumed;
                        },
                        None => {},
                    }
                    let cursor = ctx.buffer.cursor_offset();
                    let next_char = char_at_byte_offset(ctx.buffer.text(), cursor);
                    if (ch == '"' || ch == '\'' || ch == '`') && next_char == Some(ch) {
                        ctx.buffer.move_cursor_right();
                        return HookOutcome::Consumed;
                    }
                    let len = ctx.buffer.len_bytes();
                    let open_len = char_len_utf8(ch);
                    if open_len + 1 > usize::MAX - len {
                        return HookOutcome::PassThrough;
                    }
                    insert_pair(ctx.buffer, ch, close);
                    return HookOutcome::Consumed;
                },
                None => {},
            }
            if ch == ')' || ch == ']' || ch == '}' {
                let cursor = ctx.buffer.cursor_offset();
                let next_char = char_at_byte_offset(ctx.buffer.text(), cursor);
                if next_char == Some(ch) {
                    ctx.buffer.move_cursor_right();
                    return HookOutcome::Consumed;
                }
            }
        }
        HookOutcome::PassThrough
    }
}

} // verus!
