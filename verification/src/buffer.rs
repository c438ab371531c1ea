//! The document buffer: text in a rope, a byte-offset cursor and an
//! undo/redo history.
use vstd::prelude::*;
use ropey::Rope;
use crate::coordinates::Point;
use crate::error::EditorError;
use crate::history::{Edit, EditView, History, Transaction, TransactionView, stack_view};
use crate::rope_text::{
    breaks_upto, char_of_byte, is_char_boundary, lemma_breaks_mono, lemma_byte_len_subrange,
    lemma_char_of_byte, lemma_char_of_byte_at, lemma_char_of_byte_mono, lemma_line_start_bounds, lemma_line_start_le,
    line_count, line_start, line_text, rope_byte_slice_string, rope_byte_to_char, rope_byte_to_line,
    rope_char, rope_char_to_byte, rope_from_str, rope_insert, rope_len_bytes, rope_len_chars,
    rope_len_lines, rope_line_string, rope_line_to_byte, rope_remove, rope_text,
};
use crate::movement::{
    clamp_offset, find_line_end, find_line_start, find_next_word_end, find_prev_word_start,
    lemma_word_offsets_are_boundaries, line_at_byte, line_len_without_break, next_word_end,
    prev_word_start,
};
use crate::text::{byte_at, byte_len, lemma_byte_at_len, lemma_byte_at_mono, str_byte_len};

verus! {

/// A text buffer: document contents, cursor position (a byte offset) and
/// undo/redo history.
#[derive(Debug)]
pub struct EditorBuffer {
    text: Rope,
    cursor: usize,
    history: History,
    version: usize,
}

/// The edit counter after one more edit (it wraps at the top of `usize`).
pub open spec fn next_version(v: nat) -> nat {
    if v >= usize::MAX {
        0
    } else {
        v + 1
    }
}

/// The smaller of two numbers.
pub open spec fn min_nat(a: nat, b: nat) -> nat {
    if a <= b {
        a
    } else {
        b
    }
}

/// Row and byte column of byte offset `o` (clamped to the text's end).
pub open spec fn point_of_offset(t: Seq<char>, o: nat) -> (nat, nat) {
    let b = min_nat(o, byte_len(t));
    let row = breaks_upto(t, char_of_byte(t, b));
    (row, (b - byte_at(t, line_start(t, row) as int)) as nat)
}

/// Byte offset of a row and byte column: past the last row it is the text's
/// end, and the column is clamped to the row's length (line break
/// included).
pub open spec fn offset_of_point(t: Seq<char>, row: nat, col: nat) -> nat {
    if row >= line_count(t) {
        byte_len(t)
    } else {
        byte_at(t, line_start(t, row) as int) + min_nat(col, byte_len(line_text(t, row)))
    }
}

impl EditorBuffer {
    /// The document's characters.
    pub closed spec fn text_view(&self) -> Seq<char> {
        rope_text(self.text)
    }

    /// The cursor's byte offset.
    pub closed spec fn cursor_view(&self) -> nat {
        self.cursor as nat
    }

    /// The edit counter: how many edits, undos and redos changed the text.
    pub closed spec fn version_view(&self) -> nat {
        self.version as nat
    }

    /// Transactions that undo reverts, most recent last.
    pub closed spec fn undo_view(&self) -> Seq<TransactionView> {
        stack_view(self.history.undo_stack@)
    }

    /// Transactions that redo reapplies, most recently undone last.
    pub closed spec fn redo_view(&self) -> Seq<TransactionView> {
        stack_view(self.history.redo_stack@)
    }

    /// Creates a buffer holding `initial_text`, cursor at `0`, empty history.
    pub fn new(initial_text: &str) -> (b: Self)
        ensures
            b.text_view() == initial_text@,
            b.cursor_view() == 0,
            b.undo_view().len() == 0,
            b.redo_view().len() == 0,
            b.version_view() == 0,
    {
        let b = EditorBuffer {
            text: rope_from_str(initial_text),
            cursor: 0,
            history: History::new(),
            version: 0,
        };
        proof {
            assert(stack_view(b.history.undo_stack@) =~= Seq::empty());
            assert(stack_view(b.history.redo_stack@) =~= Seq::empty());
        }
        b
    }

    /// Returns the underlying rope.
    pub fn text(&self) -> (r: &Rope)
        ensures
            rope_text(*r) == self.text_view(),
    {
        &self.text
    }

    /// Returns the cursor's byte offset.
    pub fn cursor_offset(&self) -> (c: usize)
        ensures
            c == self.cursor_view(),
    {
        self.cursor
    }

    /// Returns the number of bytes in the document.
    pub fn len_bytes(&self) -> (n: usize)
        ensures
            n == byte_len(self.text_view()),
    {
        rope_len_bytes(&self.text)
    }

    /// Returns the number of lines in the document.
    pub fn len_lines(&self) -> (n: usize)
        ensures
            n == line_count(self.text_view()),
    {
        rope_len_lines(&self.text)
    }

    /// Returns line `line_idx`, line break included; empty past the last
    /// line.
    pub fn line_to_string(&self, line_idx: usize) -> (s: String)
        ensures
            s@ == if line_idx < line_count(self.text_view()) {
                line_text(self.text_view(), line_idx as nat)
            } else {
                Seq::empty()
            },
    {
        if line_idx >= rope_len_lines(&self.text) {
            return String::new();
        }
        rope_line_string(&self.text, line_idx)
    }

    /// Converts a byte offset (clamped to the document's end) into a row and
    /// byte column.
    pub fn offset_to_point(&self, offset: usize) -> (p: Point)
        ensures
            (p.row as nat, p.column as nat) == point_of_offset(self.text_view(), offset as nat),
    {
        let len = rope_len_bytes(&self.text);
        let clamped = if offset < len {
            offset
        } else {
            len
        };
        let row = rope_byte_to_line(&self.text, clamped);
        let ghost t = self.text_view();
        proof {
            lemma_char_of_byte(t, clamped as nat);
            let c = char_of_byte(t, clamped as nat);
            crate::text::lemma_byte_len_prefix(t, c as int);
            lemma_line_start_le(t, c);
            lemma_breaks_mono(t, c, t.len());
            lemma_byte_at_mono(t, line_start(t, row as nat) as int, c as int);
        }
        let line_start_byte = rope_line_to_byte(&self.text, row);
        Point::new(row, clamped - line_start_byte)
    }

    /// Converts a row and byte column into a byte offset: past the last row
    /// it is the document's end, and the column is clamped to the row.
    pub fn point_to_offset(&self, point: Point) -> (o: usize)
        ensures
            o == offset_of_point(self.text_view(), point.row as nat, point.column as nat),
    {
        if point.row >= rope_len_lines(&self.text) {
            return rope_len_bytes(&self.text);
        }
        let ghost t = self.text_view();
        let len = rope_len_bytes(&self.text);
        let line_start_byte = rope_line_to_byte(&self.text, point.row);
        let line = rope_line_string(&self.text, point.row);
        let line_len = str_byte_len(line.as_str());
        proof {
            lemma_line_start_bounds(t, point.row as nat);
            let a = line_start(t, point.row as nat);
            let b = line_start(t, (point.row + 1) as nat);
            lemma_byte_len_subrange(t, a as int, b as int);
            lemma_byte_at_mono(t, b as int, t.len() as int);
            lemma_byte_at_len(t);
        }
        let col = if point.column < line_len {
            point.column
        } else {
            line_len
        };
        line_start_byte + col
    }

    /// Returns the cursor as a row and byte column.
    pub fn cursor_point(&self) -> (p: Point)
        ensures
            (p.row as nat, p.column as nat) == point_of_offset(self.text_view(), self.cursor_view()),
    {
        self.offset_to_point(self.cursor)
    }

    /// Sets the cursor to the start of the character holding `offset`
    /// (clamped to the document's end).
    pub fn set_cursor_offset(&mut self, offset: usize)
        ensures
            final(self).version_view() == old(self).version_view(),
            final(self).text_view() == old(self).text_view(),
            final(self).cursor_view() == byte_at(
                old(self).text_view(),
                char_of_byte(
                    old(self).text_view(),
                    min_nat(offset as nat, byte_len(old(self).text_view())),
                ) as int,
            ),
            final(self).undo_view() == old(self).undo_view(),
            final(self).redo_view() == old(self).redo_view(),
    {
        let len = rope_len_bytes(&self.text);
        let offset = if offset < len {
            offset
        } else {
            len
        };
        let ci = rope_byte_to_char(&self.text, offset);
        proof {
            lemma_char_of_byte(self.text_view(), offset as nat);
        }
        self.cursor = rope_char_to_byte(&self.text, ci);
    }

    /// Sets the cursor to the offset of a row and byte column.
    pub fn set_cursor_point(&mut self, point: Point)
        ensures
            final(self).version_view() == old(self).version_view(),
            final(self).text_view() == old(self).text_view(),
            final(self).cursor_view() == offset_of_point(
                old(self).text_view(),
                point.row as nat,
                point.column as nat,
            ),
            final(self).undo_view() == old(self).undo_view(),
            final(self).redo_view() == old(self).redo_view(),
    {
        self.cursor = self.point_to_offset(point);
    }
}

/// The text with `s` inserted before character `c`.
pub open spec fn insert_at(t: Seq<char>, c: nat, s: Seq<char>) -> Seq<char> {
    t.take(c as int) + s + t.skip(c as int)
}

/// The text without characters `a..b`.
pub open spec fn remove_range(t: Seq<char>, a: nat, b: nat) -> Seq<char> {
    t.take(a as int) + t.skip(b as int)
}

/// The single-edit transaction the buffer records.
pub open spec fn single_tx(
    start: nat,
    end: nat,
    inserted: Seq<char>,
    deleted: Seq<char>,
    previous_cursor: nat,
    resulting_cursor: nat,
) -> TransactionView {
    TransactionView {
        edits: seq![EditView { start, end, inserted, deleted }],
        previous_cursor,
        resulting_cursor,
    }
}

impl EditorBuffer {
    /// Moves the cursor one character to the right; nothing at the end.
    pub fn move_cursor_right(&mut self)
        ensures
            final(self).version_view() == old(self).version_view(),
            final(self).text_view() == old(self).text_view(),
            final(self).cursor_view() == if old(self).cursor_view() < byte_len(old(self).text_view()) {
                byte_at(
                    old(self).text_view(),
                    (char_of_byte(old(self).text_view(), old(self).cursor_view()) + 1) as int,
                )
            } else {
                old(self).cursor_view()
            },
            final(self).undo_view() == old(self).undo_view(),
            final(self).redo_view() == old(self).redo_view(),
    {
        if self.cursor < rope_len_bytes(&self.text) {
            let ci = rope_byte_to_char(&self.text, self.cursor);
            proof {
                lemma_char_of_byte(self.text_view(), self.cursor as nat);
                if ci == self.text_view().len() {
                    lemma_byte_at_len(self.text_view());
                }
            }
            let n = rope_len_chars(&self.text);
            let next = if ci + 1 < n {
                ci + 1
            } else {
                n
            };
            self.cursor = rope_char_to_byte(&self.text, next);
        }
    }

    /// Moves the cursor one character to the left; nothing at the start.
    pub fn move_cursor_left(&mut self)
        requires
            old(self).cursor_view() > 0 ==> old(self).cursor_view() <= byte_len(old(self).text_view())
                && char_of_byte(old(self).text_view(), old(self).cursor_view()) >= 1,
        ensures
            final(self).version_view() == old(self).version_view(),
            final(self).text_view() == old(self).text_view(),
            final(self).cursor_view() == if old(self).cursor_view() > 0 {
                byte_at(
                    old(self).text_view(),
                    char_of_byte(old(self).text_view(), old(self).cursor_view()) - 1,
                )
            } else {
                0
            },
            final(self).undo_view() == old(self).undo_view(),
            final(self).redo_view() == old(self).redo_view(),
    {
        if self.cursor > 0 {
            let ci = rope_byte_to_char(&self.text, self.cursor);
            proof {
                lemma_char_of_byte(self.text_view(), self.cursor as nat);
            }
            self.cursor = rope_char_to_byte(&self.text, ci - 1);
        }
    }

    /// Moves the cursor one line up, keeping the byte column where the line
    /// is long enough.
    pub fn move_cursor_up(&mut self)
        ensures
            final(self).version_view() == old(self).version_view(),
            final(self).text_view() == old(self).text_view(),
            ({
                let p = point_of_offset(old(self).text_view(), old(self).cursor_view());
                final(self).cursor_view() == if p.0 > 0 {
                    offset_of_point(old(self).text_view(), (p.0 - 1) as nat, p.1)
                } else {
                    old(self).cursor_view()
                }
            }),
            final(self).undo_view() == old(self).undo_view(),
            final(self).redo_view() == old(self).redo_view(),
    {
        let point = self.cursor_point();
        if point.row > 0 {
            self.set_cursor_point(Point::new(point.row - 1, point.column));
        }
    }

    /// Moves the cursor one line down, keeping the byte column where the
    /// line is long enough.
    pub fn move_cursor_down(&mut self)
        ensures
            final(self).version_view() == old(self).version_view(),
            final(self).text_view() == old(self).text_view(),
            ({
                let p = point_of_offset(old(self).text_view(), old(self).cursor_view());
                final(self).cursor_view() == if p.0 + 1 < line_count(old(self).text_view()) {
                    offset_of_point(old(self).text_view(), p.0 + 1, p.1)
                } else {
                    old(self).cursor_view()
                }
            }),
            final(self).undo_view() == old(self).undo_view(),
            final(self).redo_view() == old(self).redo_view(),
    {
        let point = self.cursor_point();
        let n = rope_len_lines(&self.text);
        if n > 0 && point.row < n - 1 {
            self.set_cursor_point(Point::new(point.row + 1, point.column));
        }
    }

    fn bumped_version(&self) -> (v: usize)
        ensures
            v == next_version(self.version_view()),
    {
        if self.version == usize::MAX {
            0
        } else {
            self.version + 1
        }
    }

    /// The edit counter.
    pub fn version(&self) -> (v: usize)
        ensures
            v == self.version_view(),
    {
        self.version
    }

    fn record(&mut self, tx: Transaction)
        ensures
            final(self).text == old(self).text,
            final(self).cursor == old(self).cursor,
            final(self).undo_view() == old(self).undo_view().push(tx@),
            final(self).redo_view().len() == 0,
            final(self).version_view() == next_version(old(self).version_view()),
    {
        self.version = self.bumped_version();
        self.history.undo_stack.push(tx);
        self.history.redo_stack.clear();
        proof {
            assert(stack_view(self.history.redo_stack@) =~= Seq::empty());
            assert(self.undo_view() =~= old(self).undo_view().push(tx@));
        }
    }

    /// Inserts `text` at the cursor as one undoable transaction and moves
    /// the cursor past it; clears the redo history.
    pub fn insert(&mut self, text: &str)
        requires
            old(self).cursor_view() <= byte_len(old(self).text_view()),
            byte_len(old(self).text_view()) + byte_len(text@) <= usize::MAX,
        ensures
            final(self).version_view() == next_version(old(self).version_view()),
            final(self).text_view() == insert_at(
                old(self).text_view(),
                char_of_byte(old(self).text_view(), old(self).cursor_view()),
                text@,
            ),
            final(self).cursor_view() == old(self).cursor_view() + byte_len(text@),
            final(self).undo_view() == old(self).undo_view().push(
                single_tx(
                    old(self).cursor_view(),
                    old(self).cursor_view(),
                    text@,
                    Seq::empty(),
                    old(self).cursor_view(),
                    old(self).cursor_view() + byte_len(text@),
                ),
            ),
            final(self).redo_view().len() == 0,
    {
        let previous_cursor = self.cursor;
        let char_idx = rope_byte_to_char(&self.text, self.cursor);
        proof {
            lemma_char_of_byte(self.text_view(), self.cursor as nat);
        }
        rope_insert(&mut self.text, char_idx, text);
        let n = str_byte_len(text);
        self.cursor = self.cursor + n;
        let edit = Edit {
            bytes_range: previous_cursor..previous_cursor,
            inserted_text: text.to_owned(),
            deleted_text: String::new(),
        };
        let tx = Transaction { edits: vec![edit], previous_cursor, resulting_cursor: self.cursor };
        proof {
            assert(tx@.edits =~= seq![edit@]);
        }
        self.record(tx);
    }
}

/// At a character boundary `b`, `char_of_byte` names the character that
/// starts there.
pub proof fn lemma_boundary(t: Seq<char>, b: nat)
    requires
        is_char_boundary(t, b),
    ensures
        char_of_byte(t, b) <= t.len(),
        byte_at(t, char_of_byte(t, b) as int) == b,
        b <= byte_len(t),
{
    let k = choose|c: nat| c <= t.len() && #[trigger] byte_at(t, c as int) == b;
    lemma_char_of_byte_at(t, k);
    lemma_byte_at_mono(t, k as int, t.len() as int);
    lemma_byte_at_len(t);
}

/// Clamps a byte offset to the end of the text.
pub open spec fn clamp_to(o: nat, len: nat) -> nat {
    min_nat(o, len)
}

impl EditorBuffer {
    /// Deletes the character before the cursor as one undoable transaction;
    /// the cursor moves to where that character began. Nothing at the start.
    pub fn backspace(&mut self)
        requires
            is_char_boundary(old(self).text_view(), old(self).cursor_view()),
        ensures
            final(self).version_view() == if old(self).cursor_view() == 0 { old(self).version_view() } else { next_version(old(self).version_view()) },
            ({
                let t = old(self).text_view();
                let cur = old(self).cursor_view();
                let c = char_of_byte(t, cur);
                if cur == 0 {
                    &&& final(self).text_view() == t
                    &&& final(self).cursor_view() == cur
                    &&& final(self).undo_view() == old(self).undo_view()
                    &&& final(self).redo_view() == old(self).redo_view()
                } else {
                    &&& c >= 1
                    &&& final(self).text_view() == remove_range(t, (c - 1) as nat, c)
                    &&& final(self).cursor_view() == byte_at(t, c - 1)
                    &&& final(self).undo_view() == old(self).undo_view().push(
                        single_tx(
                            byte_at(t, c - 1),
                            cur,
                            Seq::empty(),
                            t.subrange(c - 1, c as int),
                            cur,
                            byte_at(t, c - 1),
                        ),
                    )
                    &&& final(self).redo_view().len() == 0
                }
            }),
    {
        if self.cursor == 0 {
            return;
        }
        let ghost t = self.text_view();
        proof {
            lemma_boundary(t, self.cursor as nat);
        }
        let char_idx = rope_byte_to_char(&self.text, self.cursor);
        let previous_char_byte = rope_char_to_byte(&self.text, char_idx - 1);
        proof {
            lemma_char_of_byte_at(t, (char_idx - 1) as nat);
            lemma_byte_at_mono(t, char_idx - 1, char_idx as int);
            assert(is_char_boundary(t, previous_char_byte as nat));
        }
        let deleted_text = rope_byte_slice_string(&self.text, previous_char_byte, self.cursor);
        let previous_cursor = self.cursor;
        rope_remove(&mut self.text, char_idx - 1, char_idx);
        self.cursor = previous_char_byte;
        let edit = Edit {
            bytes_range: previous_char_byte..previous_cursor,
            inserted_text: String::new(),
            deleted_text,
        };
        let tx = Transaction { edits: vec![edit], previous_cursor, resulting_cursor: self.cursor };
        proof {
            assert(tx@.edits =~= seq![edit@]);
        }
        self.record(tx);
    }

    /// Deletes the character at the cursor as one undoable transaction; the
    /// cursor stays. Nothing at the end of the document.
    pub fn delete(&mut self)
        requires
            old(self).cursor_view() < byte_len(old(self).text_view()) ==> is_char_boundary(
                old(self).text_view(),
                old(self).cursor_view(),
            ),
        ensures
            final(self).version_view() == if old(self).cursor_view() >= byte_len(old(self).text_view()) { old(self).version_view() } else { next_version(old(self).version_view()) },
            ({
                let t = old(self).text_view();
                let cur = old(self).cursor_view();
                let c = char_of_byte(t, cur);
                if cur >= byte_len(t) {
                    &&& final(self).text_view() == t
                    &&& final(self).cursor_view() == cur
                    &&& final(self).undo_view() == old(self).undo_view()
                    &&& final(self).redo_view() == old(self).redo_view()
                } else {
                    &&& c < t.len()
                    &&& final(self).text_view() == remove_range(t, c, c + 1)
                    &&& final(self).cursor_view() == cur
                    &&& final(self).undo_view() == old(self).undo_view().push(
                        single_tx(
                            cur,
                            byte_at(t, c + 1int),
                            Seq::empty(),
                            t.subrange(c as int, c + 1int),
                            cur,
                            cur,
                        ),
                    )
                    &&& final(self).redo_view().len() == 0
                }
            }),
    {
        if self.cursor >= rope_len_bytes(&self.text) {
            return;
        }
        let ghost t = self.text_view();
        proof {
            lemma_boundary(t, self.cursor as nat);
            lemma_byte_at_len(t);
        }
        let char_idx = rope_byte_to_char(&self.text, self.cursor);
        assert(char_idx < t.len()) by {
            if char_idx >= t.len() {
                assert(byte_at(t, t.len() as int) == byte_len(t));
                assert(char_idx == t.len());
            }
        }
        proof {
            crate::text::lemma_byte_len_ge_len(t);
        }
        let next_char = char_idx + 1;
        let end = rope_char_to_byte(&self.text, next_char);
        proof {
            lemma_char_of_byte_at(t, next_char as nat);
            lemma_byte_at_mono(t, next_char as int, t.len() as int);
            lemma_byte_at_mono(t, char_idx as int, next_char as int);
            assert(is_char_boundary(t, end as nat));
        }
        let deleted_text = rope_byte_slice_string(&self.text, self.cursor, end);
        rope_remove(&mut self.text, char_idx, next_char);
        let edit = Edit { bytes_range: self.cursor..end, inserted_text: String::new(), deleted_text };
        let tx = Transaction { edits: vec![edit], previous_cursor: self.cursor, resulting_cursor: self.cursor };
        proof {
            assert(tx@.edits =~= seq![edit@]);
        }
        self.record(tx);
    }

    /// Deletes the bytes in `range` (clamped to the document) as one
    /// undoable transaction and puts the cursor at its start. Nothing when
    /// the clamped range is empty or reversed.
    pub fn delete_range(&mut self, range: std::ops::Range<usize>)
        requires
            ({
                let len = byte_len(old(self).text_view());
                let s = clamp_to(range.start as nat, len);
                let e = clamp_to(range.end as nat, len);
                s < e ==> is_char_boundary(old(self).text_view(), s) && is_char_boundary(
                    old(self).text_view(),
                    e,
                )
            }),
        ensures
            final(self).version_view() == if clamp_to(range.start as nat, byte_len(old(self).text_view())) >= clamp_to(range.end as nat, byte_len(old(self).text_view())) { old(self).version_view() } else { next_version(old(self).version_view()) },
            ({
                let t = old(self).text_view();
                let len = byte_len(t);
                let s = clamp_to(range.start as nat, len);
                let e = clamp_to(range.end as nat, len);
                if s >= e {
                    &&& final(self).text_view() == t
                    &&& final(self).cursor_view() == old(self).cursor_view()
                    &&& final(self).undo_view() == old(self).undo_view()
                    &&& final(self).redo_view() == old(self).redo_view()
                } else {
                    &&& final(self).text_view() == remove_range(
                        t,
                        char_of_byte(t, s),
                        char_of_byte(t, e),
                    )
                    &&& final(self).cursor_view() == s
                    &&& final(self).undo_view() == old(self).undo_view().push(
                        single_tx(
                            s,
                            e,
                            Seq::empty(),
                            t.subrange(char_of_byte(t, s) as int, char_of_byte(t, e) as int),
                            old(self).cursor_view(),
                            s,
                        ),
                    )
                    &&& final(self).redo_view().len() == 0
                }
            }),
    {
        let len = rope_len_bytes(&self.text);
        let start = if range.start < len {
            range.start
        } else {
            len
        };
        let end = if range.end < len {
            range.end
        } else {
            len
        };
        if start >= end {
            return;
        }
        let ghost t = self.text_view();
        proof {
            lemma_boundary(t, start as nat);
            lemma_boundary(t, end as nat);
            if char_of_byte(t, end as nat) < char_of_byte(t, start as nat) {
                lemma_byte_at_mono(t, char_of_byte(t, end as nat) as int, char_of_byte(t, start as nat) as int);
            }
        }
        let start_char = rope_byte_to_char(&self.text, start);
        let end_char = rope_byte_to_char(&self.text, end);
        let deleted_text = rope_byte_slice_string(&self.text, start, end);
        let previous_cursor = self.cursor;
        rope_remove(&mut self.text, start_char, end_char);
        self.cursor = start;
        let edit = Edit { bytes_range: start..end, inserted_text: String::new(), deleted_text };
        let tx = Transaction { edits: vec![edit], previous_cursor, resulting_cursor: self.cursor };
        proof {
            assert(tx@.edits =~= seq![edit@]);
        }
        self.record(tx);
    }

    /// Replaces the bytes in `range` (clamped to the document) with `text`
    /// as one undoable transaction and puts the cursor after the new text.
    /// An empty clamped range inserts at its start.
    pub fn replace_range(&mut self, range: std::ops::Range<usize>, text: &str)
        requires
            ({
                let len = byte_len(old(self).text_view());
                let s = clamp_to(range.start as nat, len);
                let e = clamp_to(range.end as nat, len);
                &&& s != e ==> s < e && is_char_boundary(old(self).text_view(), s)
                    && is_char_boundary(old(self).text_view(), e)
                &&& len - (e - s) + byte_len(text@) <= usize::MAX
            }),
        ensures
            final(self).version_view() == next_version(old(self).version_view()),
            ({
                let t = old(self).text_view();
                let len = byte_len(t);
                let s = clamp_to(range.start as nat, len);
                let e = clamp_to(range.end as nat, len);
                let cs = char_of_byte(t, s);
                let ce = char_of_byte(t, e);
                &&& final(self).cursor_view() == s + byte_len(text@)
                &&& final(self).redo_view().len() == 0
                &&& if s == e {
                    &&& final(self).text_view() == insert_at(t, cs, text@)
                    &&& final(self).undo_view() == old(self).undo_view().push(
                        single_tx(s, s, text@, Seq::empty(), s, s + byte_len(text@)),
                    )
                } else {
                    &&& final(self).text_view() == insert_at(remove_range(t, cs, ce), cs, text@)
                    &&& final(self).undo_view() == old(self).undo_view().push(
                        single_tx(
                            s,
                            e,
                            text@,
                            t.subrange(cs as int, ce as int),
                            old(self).cursor_view(),
                            s + byte_len(text@),
                        ),
                    )
                }
            }),
    {
        let len = rope_len_bytes(&self.text);
        let start = if range.start < len {
            range.start
        } else {
            len
        };
        let end = if range.end < len {
            range.end
        } else {
            len
        };
        if start == end {
            self.cursor = start;
            self.insert(text);
            return;
        }
        let ghost t = self.text_view();
        proof {
            lemma_boundary(t, start as nat);
            lemma_boundary(t, end as nat);
            if char_of_byte(t, end as nat) < char_of_byte(t, start as nat) {
                lemma_byte_at_mono(t, char_of_byte(t, end as nat) as int, char_of_byte(t, start as nat) as int);
            }
        }
        let start_char = rope_byte_to_char(&self.text, start);
        let end_char = rope_byte_to_char(&self.text, end);
        let deleted_text = rope_byte_slice_string(&self.text, start, end);
        let previous_cursor = self.cursor;
        rope_remove(&mut self.text, start_char, end_char);
        rope_insert(&mut self.text, start_char, text);
        let n = str_byte_len(text);
        self.cursor = start + n;
        let edit = Edit { bytes_range: start..end, inserted_text: text.to_owned(), deleted_text };
        let tx = Transaction { edits: vec![edit], previous_cursor, resulting_cursor: self.cursor };
        proof {
            assert(tx@.edits =~= seq![edit@]);
        }
        self.record(tx);
    }
}

/// Reverts one edit: the inserted bytes at its start go away, then the
/// deleted text goes back in.
pub open spec fn undo_one(t: Seq<char>, e: EditView) -> Seq<char> {
    let end = e.start + byte_len(e.inserted);
    let t1 = if end > e.start {
        remove_range(t, char_of_byte(t, e.start), char_of_byte(t, end))
    } else {
        t
    };
    if e.deleted.len() > 0 {
        insert_at(t1, char_of_byte(t1, e.start), e.deleted)
    } else {
        t1
    }
}

/// Reverting the edit stays inside the text.
pub open spec fn undo_one_ok(t: Seq<char>, e: EditView) -> bool {
    let end = e.start + byte_len(e.inserted);
    let t1 = if end > e.start {
        remove_range(t, char_of_byte(t, e.start), char_of_byte(t, end))
    } else {
        t
    };
    &&& end > e.start ==> end <= byte_len(t)
    &&& e.deleted.len() > 0 ==> e.start <= byte_len(t1)
}

/// Reverts edits `i - 1` down to `0`.
pub open spec fn undo_from(t: Seq<char>, es: Seq<EditView>, i: nat) -> Seq<char>
    decreases i,
{
    if i == 0 {
        t
    } else {
        undo_from(undo_one(t, es[i - 1]), es, (i - 1) as nat)
    }
}

/// Every reversion of `undo_from` stays inside the text.
pub open spec fn undo_ok_from(t: Seq<char>, es: Seq<EditView>, i: nat) -> bool
    decreases i,
{
    i == 0 || (undo_one_ok(t, es[i - 1]) && undo_ok_from(undo_one(t, es[i - 1]), es, (i - 1) as nat))
}

/// Reapplies one edit: the deleted bytes at its start go away, then the
/// inserted text goes in.
pub open spec fn redo_one(t: Seq<char>, e: EditView) -> Seq<char> {
    let end = e.start + byte_len(e.deleted);
    let t1 = if end > e.start {
        remove_range(t, char_of_byte(t, e.start), char_of_byte(t, end))
    } else {
        t
    };
    if e.inserted.len() > 0 {
        insert_at(t1, char_of_byte(t1, e.start), e.inserted)
    } else {
        t1
    }
}

/// Reapplying the edit stays inside the text.
pub open spec fn redo_one_ok(t: Seq<char>, e: EditView) -> bool {
    let end = e.start + byte_len(e.deleted);
    let t1 = if end > e.start {
        remove_range(t, char_of_byte(t, e.start), char_of_byte(t, end))
    } else {
        t
    };
    &&& end > e.start ==> end <= byte_len(t)
    &&& e.inserted.len() > 0 ==> e.start <= byte_len(t1)
}

/// Reapplies edits `i` up to the last.
pub open spec fn redo_from(t: Seq<char>, es: Seq<EditView>, i: nat) -> Seq<char>
    decreases es.len() - i,
{
    if i >= es.len() {
        t
    } else {
        redo_from(redo_one(t, es[i as int]), es, i + 1)
    }
}

/// Every reapplication of `redo_from` stays inside the text.
pub open spec fn redo_ok_from(t: Seq<char>, es: Seq<EditView>, i: nat) -> bool
    decreases es.len() - i,
{
    i >= es.len() || (redo_one_ok(t, es[i as int]) && redo_ok_from(
        redo_one(t, es[i as int]),
        es,
        i + 1,
    ))
}

impl EditorBuffer {
    /// Removes `ins_len` bytes at `start` (when any) and puts `deleted` back
    /// at `start` (when non-empty).
    fn splice_bytes(&mut self, start: usize, ins_len: usize, deleted: &str)
        requires
            start + ins_len > start ==> start + ins_len <= byte_len(old(self).text_view()),
            ({
                let t = old(self).text_view();
                let end = start + ins_len;
                let t1 = if end > start {
                    remove_range(t, char_of_byte(t, start as nat), char_of_byte(t, end as nat))
                } else {
                    t
                };
                deleted@.len() > 0 ==> start <= byte_len(t1)
            }),
        ensures
            ({
                let t = old(self).text_view();
                let end = start + ins_len;
                let t1 = if end > start {
                    remove_range(t, char_of_byte(t, start as nat), char_of_byte(t, end as nat))
                } else {
                    t
                };
                final(self).text_view() == if deleted@.len() > 0 {
                    insert_at(t1, char_of_byte(t1, start as nat), deleted@)
                } else {
                    t1
                }
            }),
            final(self).cursor == old(self).cursor,
            final(self).history == old(self).history,
            final(self).version == old(self).version,
    {
        let ghost t = self.text_view();
        let _len = rope_len_bytes(&self.text);
        if ins_len > 0 {
            let end = start + ins_len;
            proof {
                lemma_char_of_byte_mono(t, start as nat, end as nat);
                lemma_char_of_byte(t, end as nat);
            }
            let start_char = rope_byte_to_char(&self.text, start);
            let end_char = rope_byte_to_char(&self.text, end);
            rope_remove(&mut self.text, start_char, end_char);
        }
        if !deleted.is_empty() {
            proof {
                lemma_char_of_byte(self.text_view(), start as nat);
            }
            let start_char = rope_byte_to_char(&self.text, start);
            rope_insert(&mut self.text, start_char, deleted);
        }
    }
}

impl EditorBuffer {
    /// Undoes the most recent transaction and moves it to the redo stack;
    /// the cursor returns to where it was before that transaction. Nothing
    /// when there is nothing to undo.
    pub fn undo(&mut self)
        requires
            old(self).undo_view().len() > 0 ==> undo_ok_from(
                old(self).text_view(),
                old(self).undo_view().last().edits,
                old(self).undo_view().last().edits.len(),
            ),
        ensures
            final(self).version_view() == if old(self).undo_view().len() == 0 { old(self).version_view() } else { next_version(old(self).version_view()) },
            old(self).undo_view().len() == 0 ==> final(self).text_view() == old(self).text_view()
                && final(self).cursor_view() == old(self).cursor_view() && final(self).undo_view()
                == old(self).undo_view() && final(self).redo_view() == old(self).redo_view(),
            old(self).undo_view().len() > 0 ==> ({
                let tx = old(self).undo_view().last();
                &&& final(self).text_view() == undo_from(
                    old(self).text_view(),
                    tx.edits,
                    tx.edits.len(),
                )
                &&& final(self).cursor_view() == tx.previous_cursor
                &&& final(self).undo_view() == old(self).undo_view().drop_last()
                &&& final(self).redo_view() == old(self).redo_view().push(tx)
            }),
    {
        let ghost t0 = self.text_view();
        let ghost undo0 = self.undo_view();
        let ghost redo0 = self.redo_view();
        match self.history.undo_stack.pop() {
            None => {
                proof {
                    assert(self.undo_view() =~= undo0);
                }
            },
            Some(tx) => {
                proof {
                    assert(undo0.last() == tx@);
                    assert(self.undo_view() =~= undo0.drop_last());
                }
                let ghost es = tx@.edits;
                let ghost undo1 = self.undo_view();
                let n = tx.edits.len();
                let mut i: usize = n;
                while i > 0
                    invariant
                        i <= n == tx.edits@.len() == es.len(),
                        es == tx@.edits,
                        undo_from(self.text_view(), es, i as nat) == undo_from(t0, es, n as nat),
                        undo_ok_from(self.text_view(), es, i as nat),
                        self.undo_view() == undo1,
                        self.redo_view() == redo0,
                        self.version == old(self).version,
                    decreases i,
                {
                    let edit = &tx.edits[i - 1];
                    proof {
                        assert(es[i - 1] == edit@);
                        crate::text::lemma_byte_len_ge_len(edit.inserted_text@);
                    }
                    let _len = rope_len_bytes(&self.text);
                    let ins = str_byte_len(edit.inserted_text.as_str());
                    self.splice_bytes(
                        edit.bytes_range.start,
                        ins,
                        edit.deleted_text.as_str(),
                    );
                    i = i - 1;
                }
                self.cursor = tx.previous_cursor;
                self.version = self.bumped_version();
                self.history.redo_stack.push(tx);
                proof {
                    assert(self.redo_view() =~= redo0.push(tx@));
                }
            },
        }
    }
}

impl EditorBuffer {
    /// Redoes the most recently undone transaction and moves it back to the
    /// undo stack; the cursor goes to where that transaction left it.
    /// Nothing when there is nothing to redo.
    pub fn redo(&mut self)
        requires
            old(self).redo_view().len() > 0 ==> redo_ok_from(
                old(self).text_view(),
                old(self).redo_view().last().edits,
                0,
            ),
        ensures
            final(self).version_view() == if old(self).redo_view().len() == 0 { old(self).version_view() } else { next_version(old(self).version_view()) },
            old(self).redo_view().len() == 0 ==> final(self).text_view() == old(self).text_view()
                && final(self).cursor_view() == old(self).cursor_view() && final(self).undo_view()
                == old(self).undo_view() && final(self).redo_view() == old(self).redo_view(),
            old(self).redo_view().len() > 0 ==> ({
                let tx = old(self).redo_view().last();
                &&& final(self).text_view() == redo_from(old(self).text_view(), tx.edits, 0)
                &&& final(self).cursor_view() == tx.resulting_cursor
                &&& final(self).undo_view() == old(self).undo_view().push(tx)
                &&& final(self).redo_view() == old(self).redo_view().drop_last()
            }),
    {
        let ghost t0 = self.text_view();
        let ghost undo0 = self.undo_view();
        let ghost redo0 = self.redo_view();
        match self.history.redo_stack.pop() {
            None => {
                proof {
                    assert(self.redo_view() =~= redo0);
                }
            },
            Some(tx) => {
                proof {
                    assert(redo0.last() == tx@);
                    assert(self.redo_view() =~= redo0.drop_last());
                }
                let ghost es = tx@.edits;
                let ghost redo1 = self.redo_view();
                let n = tx.edits.len();
                let mut i: usize = 0;
                while i < n
                    invariant
                        i <= n == tx.edits@.len() == es.len(),
                        es == tx@.edits,
                        redo_from(self.text_view(), es, i as nat) == redo_from(t0, es, 0),
                        redo_ok_from(self.text_view(), es, i as nat),
                        self.undo_view() == undo0,
                        self.redo_view() == redo1,
                        self.version == old(self).version,
                    decreases n - i,
                {
                    let edit = &tx.edits[i];
                    proof {
                        assert(es[i as int] == edit@);
                        crate::text::lemma_byte_len_ge_len(edit.deleted_text@);
                    }
                    let _len = rope_len_bytes(&self.text);
                    let del = str_byte_len(edit.deleted_text.as_str());
                    self.splice_bytes(
                        edit.bytes_range.start,
                        del,
                        edit.inserted_text.as_str(),
                    );
                    i = i + 1;
                }
                self.cursor = tx.resulting_cursor;
                self.version = self.bumped_version();
                self.history.undo_stack.push(tx);
                proof {
                    assert(self.undo_view() =~= undo0.push(tx@));
                }
            },
        }
    }
}

/// The byte offset just past a prefix is the prefix's byte length.
proof fn lemma_offset_after_prefix(p: Seq<char>, rest: Seq<char>)
    ensures
        byte_at(p + rest, p.len() as int) == byte_len(p),
        char_of_byte(p + rest, byte_len(p)) == p.len(),
{
    assert((p + rest).take(p.len() as int) =~= p);
    lemma_char_of_byte_at(p + rest, p.len());
}

proof fn lemma_single_undo(t: Seq<char>, e: EditView)
    ensures
        undo_from(t, seq![e], 1) == undo_one(t, e),
        undo_ok_from(t, seq![e], 1) == undo_one_ok(t, e),
        redo_from(t, seq![e], 0) == redo_one(t, e),
        redo_ok_from(t, seq![e], 0) == redo_one_ok(t, e),
{
    reveal_with_fuel(undo_from, 2);
    reveal_with_fuel(undo_ok_from, 2);
    reveal_with_fuel(redo_from, 2);
    reveal_with_fuel(redo_ok_from, 2);
    assert(seq![e][0] == e);
}

/// Character offsets in `a + x + rest` at the seams.
proof fn lemma_seams(a: Seq<char>, x: Seq<char>, rest: Seq<char>)
    ensures
        char_of_byte(a + x + rest, byte_len(a)) == a.len(),
        char_of_byte(a + x + rest, byte_len(a) + byte_len(x)) == a.len() + x.len(),
        byte_len(a + x + rest) == byte_len(a) + byte_len(x) + byte_len(rest),
{
    assert(a + x + rest =~= a + (x + rest));
    lemma_offset_after_prefix(a, x + rest);
    lemma_offset_after_prefix(a + x, rest);
    crate::text::lemma_byte_len_concat(a, x);
    crate::text::lemma_byte_len_concat(a + x, rest);
}

/// Undoing an insertion made at a character boundary gives back the text
/// from before it, and the undo stays inside the text.
pub proof fn law_undo_insert(t: Seq<char>, cur: nat, s: Seq<char>)
    requires
        is_char_boundary(t, cur),
    ensures
        ({
            let t1 = insert_at(t, char_of_byte(t, cur), s);
            let tx = single_tx(cur, cur, s, Seq::empty(), cur, cur + byte_len(s));
            &&& undo_ok_from(t1, tx.edits, tx.edits.len())
            &&& undo_from(t1, tx.edits, tx.edits.len()) == t
        }),
{
    lemma_boundary(t, cur);
    let c = char_of_byte(t, cur);
    let a = t.take(c as int);
    let rest = t.skip(c as int);
    let t1 = insert_at(t, c, s);
    let e = EditView { start: cur, end: cur, inserted: s, deleted: Seq::empty() };
    assert(single_tx(cur, cur, s, Seq::empty(), cur, cur + byte_len(s)).edits == seq![e]);
    lemma_single_undo(t1, e);
    assert(t1 == a + s + rest);
    lemma_seams(a, s, rest);
    assert(a + rest =~= t);
    if byte_len(s) > 0 {
        assert(remove_range(t1, c, c + s.len()) =~= a + rest);
    } else {
        crate::text::lemma_byte_len_ge_len(s);
        assert(t1 =~= t);
    }
}

/// Redoing an undone insertion gives back the text with the insertion.
pub proof fn law_redo_insert(t: Seq<char>, cur: nat, s: Seq<char>)
    requires
        is_char_boundary(t, cur),
    ensures
        ({
            let tx = single_tx(cur, cur, s, Seq::empty(), cur, cur + byte_len(s));
            &&& redo_ok_from(t, tx.edits, 0)
            &&& redo_from(t, tx.edits, 0) == insert_at(t, char_of_byte(t, cur), s)
        }),
{
    lemma_boundary(t, cur);
    let c = char_of_byte(t, cur);
    let e = EditView { start: cur, end: cur, inserted: s, deleted: Seq::empty() };
    assert(single_tx(cur, cur, s, Seq::empty(), cur, cur + byte_len(s)).edits == seq![e]);
    lemma_single_undo(t, e);
    assert(byte_len(Seq::<char>::empty()) == 0);
    if s.len() == 0 {
        assert(insert_at(t, c, s) =~= t);
    }
}

/// Undoing a range deletion between character boundaries gives back the
/// text from before it.
pub proof fn law_undo_delete_range(t: Seq<char>, s: nat, e: nat, cur: nat)
    requires
        s < e,
        is_char_boundary(t, s),
        is_char_boundary(t, e),
    ensures
        ({
            let cs = char_of_byte(t, s);
            let ce = char_of_byte(t, e);
            let t1 = remove_range(t, cs, ce);
            let tx = single_tx(s, e, Seq::empty(), t.subrange(cs as int, ce as int), cur, s);
            &&& undo_ok_from(t1, tx.edits, tx.edits.len())
            &&& undo_from(t1, tx.edits, tx.edits.len()) == t
        }),
{
    lemma_boundary(t, s);
    lemma_boundary(t, e);
    let cs = char_of_byte(t, s);
    let ce = char_of_byte(t, e);
    if ce <= cs {
        lemma_byte_at_mono(t, ce as int, cs as int);
    }
    let a = t.take(cs as int);
    let mid = t.subrange(cs as int, ce as int);
    let rest = t.skip(ce as int);
    let t1 = remove_range(t, cs, ce);
    let ed = EditView { start: s, end: e, inserted: Seq::empty(), deleted: mid };
    assert(single_tx(s, e, Seq::empty(), mid, cur, s).edits == seq![ed]);
    lemma_single_undo(t1, ed);
    assert(byte_len(Seq::<char>::empty()) == 0);
    assert(t1 =~= a + Seq::<char>::empty() + rest);
    lemma_seams(a, Seq::<char>::empty(), rest);
    assert(insert_at(t1, cs, mid) =~= t);
}

/// Undoing a replacement between character boundaries gives back the
/// text from before it.
pub proof fn law_undo_replace_range(t: Seq<char>, s: nat, e: nat, x: Seq<char>, cur: nat)
    requires
        s < e,
        is_char_boundary(t, s),
        is_char_boundary(t, e),
    ensures
        ({
            let cs = char_of_byte(t, s);
            let ce = char_of_byte(t, e);
            let t2 = insert_at(remove_range(t, cs, ce), cs, x);
            let tx = single_tx(s, e, x, t.subrange(cs as int, ce as int), cur, s + byte_len(x));
            &&& undo_ok_from(t2, tx.edits, tx.edits.len())
            &&& undo_from(t2, tx.edits, tx.edits.len()) == t
        }),
{
    lemma_boundary(t, s);
    lemma_boundary(t, e);
    let cs = char_of_byte(t, s);
    let ce = char_of_byte(t, e);
    if ce <= cs {
        lemma_byte_at_mono(t, ce as int, cs as int);
    }
    let a = t.take(cs as int);
    let mid = t.subrange(cs as int, ce as int);
    let rest = t.skip(ce as int);
    let t2 = insert_at(remove_range(t, cs, ce), cs, x);
    let ed = EditView { start: s, end: e, inserted: x, deleted: mid };
    assert(single_tx(s, e, x, mid, cur, s + byte_len(x)).edits == seq![ed]);
    lemma_single_undo(t2, ed);
    assert(t2 =~= a + x + rest);
    lemma_seams(a, x, rest);
    let t3 = remove_range(t2, cs, cs + x.len());
    assert(t3 =~= a + Seq::<char>::empty() + rest);
    lemma_seams(a, Seq::<char>::empty(), rest);
    if byte_len(x) == 0 {
        crate::text::lemma_byte_len_ge_len(x);
        assert(t2 =~= t3);
    }
    assert(insert_at(t3, cs, mid) =~= t);
}

/// Undoing a backspace at a character boundary gives back the text from
/// before it.
pub proof fn law_undo_backspace(t: Seq<char>, cur: nat)
    requires
        is_char_boundary(t, cur),
        cur > 0,
    ensures
        ({
            let c = char_of_byte(t, cur);
            let t1 = remove_range(t, (c - 1) as nat, c);
            let tx = single_tx(
                byte_at(t, c - 1),
                cur,
                Seq::empty(),
                t.subrange(c - 1, c as int),
                cur,
                byte_at(t, c - 1),
            );
            &&& c >= 1
            &&& undo_ok_from(t1, tx.edits, tx.edits.len())
            &&& undo_from(t1, tx.edits, tx.edits.len()) == t
        }),
{
    lemma_boundary(t, cur);
    let c = char_of_byte(t, cur);
    if c == 0 {
        assert(t.take(0) =~= Seq::<char>::empty());
    }
    let p = byte_at(t, c - 1);
    lemma_char_of_byte_at(t, (c - 1) as nat);
    lemma_byte_at_mono(t, c - 1, c as int);
    assert(is_char_boundary(t, p));
    law_undo_delete_range(t, p, cur, cur);
}

/// Undoing a forward delete at a character boundary gives back the text
/// from before it.
pub proof fn law_undo_delete(t: Seq<char>, cur: nat)
    requires
        is_char_boundary(t, cur),
        cur < byte_len(t),
    ensures
        ({
            let c = char_of_byte(t, cur);
            let t1 = remove_range(t, c, c + 1);
            let tx = single_tx(
                cur,
                byte_at(t, c + 1int),
                Seq::empty(),
                t.subrange(c as int, c + 1int),
                cur,
                cur,
            );
            &&& c < t.len()
            &&& undo_ok_from(t1, tx.edits, tx.edits.len())
            &&& undo_from(t1, tx.edits, tx.edits.len()) == t
        }),
{
    lemma_boundary(t, cur);
    lemma_byte_at_len(t);
    let c = char_of_byte(t, cur);
    let q = byte_at(t, c + 1int);
    lemma_char_of_byte_at(t, c + 1);
    lemma_byte_at_mono(t, c as int, c + 1int);
    assert(is_char_boundary(t, q));
    law_undo_delete_range(t, cur, q, cur);
}

/// Byte offset where the line holding `cursor` starts.
pub open spec fn line_start_of(t: Seq<char>, cursor: nat) -> nat {
    byte_at(t, line_start(t, line_at_byte(t, cursor)) as int)
}

/// Byte offset where the line holding `cursor` ends, before its break.
pub open spec fn line_end_of(t: Seq<char>, cursor: nat) -> nat {
    let l = line_at_byte(t, cursor);
    byte_at(t, (line_start(t, l) + line_len_without_break(t, l)) as int)
}

impl EditorBuffer {
    /// Byte offset of the previous word start relative to the cursor.
    pub fn prev_word_offset(&self) -> (o: usize)
        ensures
            o == prev_word_start(self.text_view(), self.cursor_view()),
    {
        find_prev_word_start(&self.text, self.cursor)
    }

    /// Byte offset of the next word end relative to the cursor.
    pub fn next_word_offset(&self) -> (o: usize)
        ensures
            o == next_word_end(self.text_view(), self.cursor_view()),
    {
        find_next_word_end(&self.text, self.cursor)
    }

    /// Byte offset of the start of the cursor's line.
    pub fn line_start_offset(&self) -> (o: usize)
        ensures
            o == line_start_of(self.text_view(), self.cursor_view()),
    {
        find_line_start(&self.text, self.cursor)
    }

    /// Byte offset of the end of the cursor's line, before its line break.
    pub fn line_end_offset(&self) -> (o: usize)
        ensures
            o == line_end_of(self.text_view(), self.cursor_view()),
    {
        find_line_end(&self.text, self.cursor)
    }

    /// Moves the cursor to the start of the previous word.
    pub fn move_cursor_prev_word(&mut self)
        ensures
            final(self).version_view() == old(self).version_view(),
            final(self).text_view() == old(self).text_view(),
            final(self).cursor_view() == prev_word_start(old(self).text_view(), old(self).cursor_view()),
            final(self).undo_view() == old(self).undo_view(),
            final(self).redo_view() == old(self).redo_view(),
    {
        self.cursor = self.prev_word_offset();
    }

    /// Moves the cursor to the end of the next word.
    pub fn move_cursor_next_word(&mut self)
        ensures
            final(self).version_view() == old(self).version_view(),
            final(self).text_view() == old(self).text_view(),
            final(self).cursor_view() == next_word_end(old(self).text_view(), old(self).cursor_view()),
            final(self).undo_view() == old(self).undo_view(),
            final(self).redo_view() == old(self).redo_view(),
    {
        self.cursor = self.next_word_offset();
    }

    /// Moves the cursor to the beginning of its line.
    pub fn move_cursor_line_start(&mut self)
        ensures
            final(self).version_view() == old(self).version_view(),
            final(self).text_view() == old(self).text_view(),
            final(self).cursor_view() == line_start_of(old(self).text_view(), old(self).cursor_view()),
            final(self).undo_view() == old(self).undo_view(),
            final(self).redo_view() == old(self).redo_view(),
    {
        self.cursor = self.line_start_offset();
    }

    /// Moves the cursor to the end of its line.
    pub fn move_cursor_line_end(&mut self)
        ensures
            final(self).version_view() == old(self).version_view(),
            final(self).text_view() == old(self).text_view(),
            final(self).cursor_view() == line_end_of(old(self).text_view(), old(self).cursor_view()),
            final(self).undo_view() == old(self).undo_view(),
            final(self).redo_view() == old(self).redo_view(),
    {
        self.cursor = self.line_end_offset();
    }

    /// Deletes from the previous word boundary up to the cursor as one
    /// undoable transaction; `false` (and nothing changes) when there is
    /// nothing before the cursor to delete.
    pub fn delete_prev_word(&mut self) -> (deleted: bool)
        requires
            prev_word_start(old(self).text_view(), old(self).cursor_view()) < old(self).cursor_view()
                ==> is_char_boundary(old(self).text_view(), old(self).cursor_view()),
        ensures
            final(self).version_view() == if deleted { next_version(old(self).version_view()) } else { old(self).version_view() },
            ({
                let t = old(self).text_view();
                let cur = old(self).cursor_view();
                let p = prev_word_start(t, cur);
                if p < cur {
                    &&& deleted
                    &&& final(self).text_view() == remove_range(
                        t,
                        char_of_byte(t, p),
                        char_of_byte(t, cur),
                    )
                    &&& final(self).cursor_view() == p
                    &&& final(self).undo_view() == old(self).undo_view().push(
                        single_tx(
                            p,
                            cur,
                            Seq::empty(),
                            t.subrange(char_of_byte(t, p) as int, char_of_byte(t, cur) as int),
                            cur,
                            p,
                        ),
                    )
                    &&& final(self).redo_view().len() == 0
                } else {
                    &&& !deleted
                    &&& final(self).text_view() == t
                    &&& final(self).cursor_view() == cur
                    &&& final(self).undo_view() == old(self).undo_view()
                    &&& final(self).redo_view() == old(self).redo_view()
                }
            }),
    {
        let target = self.prev_word_offset();
        proof {
            lemma_word_offsets_are_boundaries(self.text_view(), self.cursor as nat);
            if target < self.cursor {
                lemma_boundary(self.text_view(), self.cursor as nat);
                lemma_boundary(self.text_view(), target as nat);
            }
        }
        if target < self.cursor {
            let c = self.cursor;
            self.delete_range(target..c);
            true
        } else {
            false
        }
    }

    /// Deletes from the cursor up to the next word boundary as one undoable
    /// transaction; `false` (and nothing changes) at the end of the text.
    pub fn delete_next_word(&mut self) -> (deleted: bool)
        requires
            old(self).cursor_view() < next_word_end(old(self).text_view(), old(self).cursor_view())
                ==> is_char_boundary(old(self).text_view(), old(self).cursor_view()),
        ensures
            final(self).version_view() == if deleted { next_version(old(self).version_view()) } else { old(self).version_view() },
            ({
                let t = old(self).text_view();
                let cur = old(self).cursor_view();
                let n = next_word_end(t, cur);
                if cur < n {
                    &&& deleted
                    &&& final(self).text_view() == remove_range(
                        t,
                        char_of_byte(t, cur),
                        char_of_byte(t, n),
                    )
                    &&& final(self).cursor_view() == cur
                    &&& final(self).undo_view() == old(self).undo_view().push(
                        single_tx(
                            cur,
                            n,
                            Seq::empty(),
                            t.subrange(char_of_byte(t, cur) as int, char_of_byte(t, n) as int),
                            cur,
                            cur,
                        ),
                    )
                    &&& final(self).redo_view().len() == 0
                } else {
                    &&& !deleted
                    &&& final(self).text_view() == t
                    &&& final(self).cursor_view() == cur
                    &&& final(self).undo_view() == old(self).undo_view()
                    &&& final(self).redo_view() == old(self).redo_view()
                }
            }),
    {
        let target = self.next_word_offset();
        proof {
            lemma_word_offsets_are_boundaries(self.text_view(), self.cursor as nat);
            if self.cursor < target {
                lemma_boundary(self.text_view(), self.cursor as nat);
                lemma_boundary(self.text_view(), target as nat);
            }
        }
        if self.cursor < target {
            let c = self.cursor;
            self.delete_range(c..target);
            true
        } else {
            false
        }
    }
}

/// Redoing an undone range deletion removes the same characters again.
pub proof fn law_redo_delete_range(t: Seq<char>, s: nat, e: nat, cur: nat)
    requires
        s < e,
        is_char_boundary(t, s),
        is_char_boundary(t, e),
    ensures
        ({
            let cs = char_of_byte(t, s);
            let ce = char_of_byte(t, e);
            let tx = single_tx(s, e, Seq::empty(), t.subrange(cs as int, ce as int), cur, s);
            &&& redo_ok_from(t, tx.edits, 0)
            &&& redo_from(t, tx.edits, 0) == remove_range(t, cs, ce)
        }),
{
    law_redo_replace_range(t, s, e, Seq::empty(), cur);
    lemma_boundary(t, s);
    lemma_boundary(t, e);
    let cs = char_of_byte(t, s);
    let ce = char_of_byte(t, e);
    if ce <= cs {
        lemma_byte_at_mono(t, ce as int, cs as int);
    }
    assert(insert_at(remove_range(t, cs, ce), cs, Seq::empty()) =~= remove_range(t, cs, ce));
}

/// Redoing an undone replacement puts the replacement back.
pub proof fn law_redo_replace_range(t: Seq<char>, s: nat, e: nat, x: Seq<char>, cur: nat)
    requires
        s < e,
        is_char_boundary(t, s),
        is_char_boundary(t, e),
    ensures
        ({
            let cs = char_of_byte(t, s);
            let ce = char_of_byte(t, e);
            let tx = single_tx(s, e, x, t.subrange(cs as int, ce as int), cur, s + byte_len(x));
            &&& redo_ok_from(t, tx.edits, 0)
            &&& redo_from(t, tx.edits, 0) == insert_at(remove_range(t, cs, ce), cs, x)
        }),
{
    lemma_boundary(t, s);
    lemma_boundary(t, e);
    let cs = char_of_byte(t, s);
    let ce = char_of_byte(t, e);
    if ce <= cs {
        lemma_byte_at_mono(t, ce as int, cs as int);
    }
    let a = t.take(cs as int);
    let mid = t.subrange(cs as int, ce as int);
    let rest = t.skip(ce as int);
    let ed = EditView { start: s, end: e, inserted: x, deleted: mid };
    assert(single_tx(s, e, x, mid, cur, s + byte_len(x)).edits == seq![ed]);
    lemma_single_undo(t, ed);
    assert(t =~= a + mid + rest);
    lemma_seams(a, mid, rest);
    let t1 = remove_range(t, cs, ce);
    assert(t1 =~= a + Seq::<char>::empty() + rest);
    lemma_seams(a, Seq::<char>::empty(), rest);
    if x.len() == 0 {
        assert(insert_at(t1, cs, x) =~= t1);
    }
}


/// Replacement pairs as byte ranges and texts.
pub open spec fn batch_view(v: Seq<(std::ops::Range<usize>, String)>) -> Seq<(nat, nat, Seq<char>)> {
    v.map_values(|p: (std::ops::Range<usize>, String)| (p.0.start as nat, p.0.end as nat, p.1@))
}

/// A batch of replacements is usable on `t`: every range lies in the text,
/// starts and ends on character boundaries, and the ranges come in
/// ascending order without overlapping.
pub open spec fn batch_valid(t: Seq<char>, reps: Seq<(nat, nat, Seq<char>)>) -> bool {
    &&& forall|i: int|
        0 <= i < reps.len() ==> (#[trigger] reps[i]).0 <= reps[i].1 <= byte_len(t)
            && is_char_boundary(t, reps[i].0) && is_char_boundary(
            t,
            reps[i].1,
        )
    &&& forall|i: int, j: int|
        0 <= i < j < reps.len() ==> (#[trigger] reps[i]).1 <= (#[trigger] reps[j]).0
}

/// Appending a replacement that starts no earlier than the last one ends
/// keeps a batch usable.
pub proof fn lemma_batch_push(t: Seq<char>, bv: Seq<(nat, nat, Seq<char>)>, x: (nat, nat, Seq<char>))
    requires
        batch_valid(t, bv),
        x.0 <= x.1,
        is_char_boundary(t, x.0),
        is_char_boundary(t, x.1),
        bv.len() > 0 ==> bv.last().1 <= x.0,
    ensures
        batch_valid(t, bv.push(x)),
{
    lemma_boundary(t, x.1);
    let nb = bv.push(x);
    assert forall|i: int, j: int| 0 <= i < j < nb.len() implies (#[trigger] nb[i]).1 <= (
    #[trigger] nb[j]).0 by {
        if j == bv.len() {
            if i < bv.len() - 1 {
                assert(bv[i].1 <= bv[bv.len() - 1].0);
                assert(bv[bv.len() - 1].0 <= bv[bv.len() - 1].1);
            }
        } else {
            assert(nb[i] == bv[i] && nb[j] == bv[j]);
        }
    }
    assert forall|i: int| 0 <= i < nb.len() implies (#[trigger] nb[i]).0 <= nb[i].1 <= byte_len(t)
        && is_char_boundary(t, nb[i].0) && is_char_boundary(t, nb[i].1) by {
        if i < bv.len() {
            assert(nb[i] == bv[i]);
        }
    }
}

/// Character index where the unreplaced text after replacement `j - 1`
/// stops: the start of replacement `j`, or the end of the text.
pub open spec fn batch_gap(t: Seq<char>, reps: Seq<(nat, nat, Seq<char>)>, j: int) -> nat {
    if 0 <= j < reps.len() {
        char_of_byte(t, reps[j].0)
    } else {
        t.len()
    }
}

/// From replacement `k` on: each replacement's text followed by the
/// original characters up to the next replacement.
pub open spec fn batch_tail(t: Seq<char>, reps: Seq<(nat, nat, Seq<char>)>, k: nat) -> Seq<
    char,
>
    decreases reps.len() - k,
{
    if k >= reps.len() {
        Seq::empty()
    } else {
        reps[k as int].2 + t.subrange(
            char_of_byte(t, reps[k as int].1) as int,
            batch_gap(t, reps, k + 1int) as int,
        ) + batch_tail(t, reps, k + 1)
    }
}

/// The text with replacements `k..` applied and the earlier ones not.
pub open spec fn batch_state(t: Seq<char>, reps: Seq<(nat, nat, Seq<char>)>, k: nat) -> Seq<
    char,
> {
    t.take(batch_gap(t, reps, k as int) as int) + batch_tail(t, reps, k)
}

/// The text with every replacement of the batch applied.
pub open spec fn replaced_all(t: Seq<char>, reps: Seq<(nat, nat, Seq<char>)>) -> Seq<char> {
    batch_state(t, reps, 0)
}

/// The edits a batch records, in the order they are applied: last range
/// first.
pub open spec fn batch_edits(t: Seq<char>, reps: Seq<(nat, nat, Seq<char>)>) -> Seq<EditView> {
    Seq::new(
        reps.len(),
        |j: int|
            EditView {
                start: reps[reps.len() - 1 - j].0,
                end: reps[reps.len() - 1 - j].1,
                inserted: reps[reps.len() - 1 - j].2,
                deleted: t.subrange(
                    char_of_byte(t, reps[reps.len() - 1 - j].0) as int,
                    char_of_byte(t, reps[reps.len() - 1 - j].1) as int,
                ),
            },
    )
}

/// The seam between states `k + 1` and `k`: replacement `k` sits at the
/// same character positions in both, and swapping its text for the
/// original characters takes one state to the other.
#[verifier::spinoff_prover]
#[verifier::rlimit(40)]
proof fn lemma_batch_step(t: Seq<char>, reps: Seq<(nat, nat, Seq<char>)>, k: nat)
    requires
        batch_valid(t, reps),
        k < reps.len(),
    ensures
        ({
            let s = reps[k as int].0;
            let e = reps[k as int].1;
            let x = reps[k as int].2;
            let cs = char_of_byte(t, s);
            let ce = char_of_byte(t, e);
            let nxt = batch_state(t, reps, k + 1);
            let cur = batch_state(t, reps, k);
            &&& cs <= ce <= batch_gap(t, reps, k + 1int) <= t.len()
            &&& ce <= nxt.len()
            &&& byte_at(nxt, cs as int) == s
            &&& byte_at(nxt, ce as int) == e
            &&& nxt.subrange(cs as int, ce as int) == t.subrange(cs as int, ce as int)
            &&& e == s + byte_len(t.subrange(cs as int, ce as int))
            &&& cur == nxt.take(cs as int) + x + nxt.skip(ce as int)
            &&& cs + x.len() <= cur.len()
            &&& byte_at(cur, cs as int) == s
            &&& byte_at(cur, (cs + x.len()) as int) == s + byte_len(x)
            &&& cur.take(cs as int) + t.subrange(cs as int, ce as int) + cur.skip((cs + x.len()) as int) == nxt
        }),
{
    let s = reps[k as int].0;
    let e = reps[k as int].1;
    let x = reps[k as int].2;
    let cs = char_of_byte(t, s);
    let ce = char_of_byte(t, e);
    let g = batch_gap(t, reps, k + 1int);
    let nxt = batch_state(t, reps, k + 1);
    let cur = batch_state(t, reps, k);
    let rest = batch_tail(t, reps, k + 1);
    assert(reps[k as int] == reps[k as int]);
    lemma_boundary(t, s);
    lemma_boundary(t, e);
    lemma_char_of_byte_mono(t, s, e);
    if k + 1 < reps.len() {
        assert(reps[k as int].1 <= reps[k + 1int].0);
        lemma_char_of_byte_mono(t, e, reps[k + 1int].0);
        lemma_char_of_byte(t, reps[k + 1int].0);
    }
    assert(nxt.take(cs as int) =~= t.take(cs as int));
    assert(nxt.take(ce as int) =~= t.take(ce as int));
    assert(nxt.subrange(cs as int, ce as int) =~= t.subrange(cs as int, ce as int));
    assert(t.take(ce as int) =~= t.take(cs as int) + t.subrange(cs as int, ce as int));
    crate::text::lemma_byte_len_concat(t.take(cs as int), t.subrange(cs as int, ce as int));
    assert(batch_tail(t, reps, k) == x + t.subrange(ce as int, g as int) + rest);
    assert(nxt.skip(ce as int) =~= t.subrange(ce as int, g as int) + rest);
    assert(cur =~= nxt.take(cs as int) + x + nxt.skip(ce as int));
    assert(cur.take(cs as int) =~= t.take(cs as int));
    assert(cur.take((cs + x.len()) as int) =~= t.take(cs as int) + x);
    crate::text::lemma_byte_len_concat(t.take(cs as int), x);
    assert(cur.skip((cs + x.len()) as int) =~= t.subrange(ce as int, g as int) + rest);
    assert(cur.take(cs as int) + t.subrange(cs as int, ce as int) + cur.skip((cs + x.len()) as int) =~= nxt);
}

/// Reverting an edit whose inserted text sits at character `cs` puts the
/// deleted characters back in its place.
proof fn lemma_undo_seam(cur: Seq<char>, nxt: Seq<char>, ed: EditView, cs: nat)
    requires
        cs + ed.inserted.len() <= cur.len(),
        byte_at(cur, cs as int) == ed.start,
        byte_at(cur, (cs + ed.inserted.len()) as int) == ed.start + byte_len(ed.inserted),
        cur.take(cs as int) + ed.deleted + cur.skip((cs + ed.inserted.len()) as int) == nxt,
    ensures
        undo_one_ok(cur, ed),
        undo_one(cur, ed) == nxt,
{
    let x = ed.inserted;
    let s = ed.start;
    lemma_char_of_byte_at(cur, cs);
    lemma_char_of_byte_at(cur, cs + x.len());
    lemma_byte_at_mono(cur, (cs + x.len()) as int, cur.len() as int);
    lemma_byte_at_len(cur);
    let end = s + byte_len(x);
    if end <= s && x.len() > 0 {
        crate::text::lemma_byte_len_ge_len(x);
    }
    let t1 = if end > s {
        remove_range(cur, cs, cs + x.len())
    } else {
        cur
    };
    assert(t1 =~= cur.take(cs as int) + cur.skip((cs + x.len()) as int));
    assert(t1.take(cs as int) =~= cur.take(cs as int));
    lemma_char_of_byte_at(t1, cs);
    lemma_byte_at_mono(t1, cs as int, t1.len() as int);
    lemma_byte_at_len(t1);
    if ed.deleted.len() > 0 {
        assert(insert_at(t1, cs, ed.deleted) =~= nxt);
    } else {
        assert(t1 =~= nxt);
    }
}

/// Reapplying an edit whose deleted text sits at characters `cs..ce`
/// puts the inserted characters in its place.
proof fn lemma_redo_seam(cur: Seq<char>, prv: Seq<char>, ed: EditView, cs: nat, ce: nat)
    requires
        cs <= ce <= cur.len(),
        byte_at(cur, cs as int) == ed.start,
        byte_at(cur, ce as int) == ed.start + byte_len(ed.deleted),
        ed.deleted == cur.subrange(cs as int, ce as int),
        cur.take(cs as int) + ed.inserted + cur.skip(ce as int) == prv,
    ensures
        redo_one_ok(cur, ed),
        redo_one(cur, ed) == prv,
{
    let s = ed.start;
    lemma_char_of_byte_at(cur, cs);
    lemma_char_of_byte_at(cur, ce);
    lemma_byte_at_mono(cur, ce as int, cur.len() as int);
    lemma_byte_at_len(cur);
    let end = s + byte_len(ed.deleted);
    if end <= s && ed.deleted.len() > 0 {
        crate::text::lemma_byte_len_ge_len(ed.deleted);
    }
    let t1 = if end > s {
        remove_range(cur, cs, ce)
    } else {
        cur
    };
    assert(t1 =~= cur.take(cs as int) + cur.skip(ce as int));
    assert(t1.take(cs as int) =~= cur.take(cs as int));
    lemma_char_of_byte_at(t1, cs);
    lemma_byte_at_mono(t1, cs as int, t1.len() as int);
    lemma_byte_at_len(t1);
    if ed.inserted.len() > 0 {
        assert(insert_at(t1, cs, ed.inserted) =~= prv);
    } else {
        assert(t1 =~= prv);
    }
}

/// Undoing every edit of a batch, one by one from the last applied,
/// brings the text back, and each step stays inside the text.
proof fn lemma_batch_undo(t: Seq<char>, reps: Seq<(nat, nat, Seq<char>)>, k: nat)
    requires
        batch_valid(t, reps),
        k <= reps.len(),
    ensures
        undo_ok_from(batch_state(t, reps, k), batch_edits(t, reps), (reps.len() - k) as nat),
        undo_from(batch_state(t, reps, k), batch_edits(t, reps), (reps.len() - k) as nat) == t,
    decreases reps.len() - k,
{
    let n = reps.len();
    let es = batch_edits(t, reps);
    if k == n {
        assert(batch_state(t, reps, k) =~= t);
    } else {
        lemma_batch_step(t, reps, k);
        lemma_batch_undo(t, reps, k + 1);
        let cs = char_of_byte(t, reps[k as int].0);
        let ed = es[n - k - 1];
        lemma_undo_seam(batch_state(t, reps, k), batch_state(t, reps, k + 1), ed, cs);
        assert((n - k - 1) as nat + 1 == (n - k) as nat);
    }
}

/// Redoing the edits of a batch in order, from the original text, gives
/// the replaced text, and each step stays inside the text.
proof fn lemma_batch_redo(t: Seq<char>, reps: Seq<(nat, nat, Seq<char>)>, k: nat)
    requires
        batch_valid(t, reps),
        k <= reps.len(),
    ensures
        redo_ok_from(batch_state(t, reps, k), batch_edits(t, reps), (reps.len() - k) as nat),
        redo_from(batch_state(t, reps, k), batch_edits(t, reps), (reps.len() - k) as nat)
            == replaced_all(t, reps),
    decreases k,
{
    let n = reps.len();
    let es = batch_edits(t, reps);
    if k > 0 {
        let j = (k - 1) as nat;
        lemma_batch_step(t, reps, j);
        lemma_batch_redo(t, reps, j);
        let cs = char_of_byte(t, reps[j as int].0);
        let ce = char_of_byte(t, reps[j as int].1);
        let ed = es[(n - k) as int];
        lemma_redo_seam(batch_state(t, reps, k), batch_state(t, reps, j), ed, cs, ce);
        assert((n - k) as nat + 1 == (n - j) as nat);
    }
}

/// Law: undoing a batch of replacements gives the text back.
pub proof fn law_undo_replace_many(t: Seq<char>, reps: Seq<(nat, nat, Seq<char>)>)
    requires
        batch_valid(t, reps),
    ensures
        undo_ok_from(replaced_all(t, reps), batch_edits(t, reps), reps.len()),
        undo_from(replaced_all(t, reps), batch_edits(t, reps), reps.len()) == t,
{
    lemma_batch_undo(t, reps, 0);
}

/// Law: redoing a batch of replacements on the original text gives the
/// replaced text again.
pub proof fn law_redo_replace_many(t: Seq<char>, reps: Seq<(nat, nat, Seq<char>)>)
    requires
        batch_valid(t, reps),
    ensures
        redo_ok_from(t, batch_edits(t, reps), 0),
        redo_from(t, batch_edits(t, reps), 0) == replaced_all(t, reps),
{
    lemma_batch_redo(t, reps, reps.len());
    assert(batch_state(t, reps, reps.len()) =~= t);
}

impl EditorBuffer {
    /// Applies a batch of replacements (ascending, non-overlapping byte
    /// ranges) as one undoable transaction and returns how many there were.
    /// An empty batch changes nothing. The cursor keeps its offset, clamped
    /// to the new text and moved back to a character boundary.
    pub fn replace_many(&mut self, replacements: Vec<(std::ops::Range<usize>, String)>) -> (n: usize)
        requires
            batch_valid(old(self).text_view(), batch_view(replacements@)),
        ensures
            n == replacements@.len(),
            n == 0 ==> final(self).text_view() == old(self).text_view() && final(self).cursor_view()
                == old(self).cursor_view() && final(self).undo_view() == old(self).undo_view()
                && final(self).redo_view() == old(self).redo_view() && final(self).version_view()
                == old(self).version_view(),
            n > 0 ==> ({
                let t = old(self).text_view();
                let t2 = replaced_all(t, batch_view(replacements@));
                &&& final(self).text_view() == t2
                &&& final(self).cursor_view() == byte_at(
                    t2,
                    char_of_byte(t2, min_nat(old(self).cursor_view(), byte_len(t2))) as int,
                )
                &&& final(self).undo_view() == old(self).undo_view().push(
                    TransactionView {
                        edits: batch_edits(t, batch_view(replacements@)),
                        previous_cursor: old(self).cursor_view(),
                        resulting_cursor: final(self).cursor_view(),
                    },
                )
                &&& final(self).redo_view().len() == 0
                &&& final(self).version_view() == next_version(old(self).version_view())
            }),
    {
        let n = replacements.len();
        if n == 0 {
            return 0;
        }
        let ghost t = self.text_view();
        let ghost reps = batch_view(replacements@);
        let previous_cursor = self.cursor;
        let mut edits: Vec<Edit> = Vec::new();
        let mut k = n;
        proof {
            assert(batch_state(t, reps, n as nat) =~= t);
        }
        while k > 0
            invariant
                k <= n == reps.len() == replacements@.len(),
                reps == batch_view(replacements@),
                batch_valid(t, reps),
                self.text_view() == batch_state(t, reps, k as nat),
                edits@.len() == n - k,
                forall|j: int| 0 <= j < n - k ==> (#[trigger] edits@[j])@ == batch_edits(t, reps)[j],
                self.history == old(self).history,
                self.version == old(self).version,
            decreases k,
        {
            let ghost cur = self.text_view();
            proof {
                lemma_batch_step(t, reps, (k - 1) as nat);
            }
            let start = replacements[k - 1].0.start;
            let end = replacements[k - 1].0.end;
            proof {
                assert(reps[k - 1] == (start as nat, end as nat, replacements@[k - 1].1@));
            }
            let ghost cs = char_of_byte(t, start as nat);
            let ghost ce = char_of_byte(t, end as nat);
            proof {
                lemma_byte_at_mono(cur, ce as int, cur.len() as int);
                lemma_byte_at_len(cur);
                lemma_char_of_byte_at(cur, cs);
                lemma_char_of_byte_at(cur, ce);
                assert(is_char_boundary(cur, start as nat));
                assert(is_char_boundary(cur, end as nat));
            }
            let start_char = rope_byte_to_char(&self.text, start);
            let end_char = rope_byte_to_char(&self.text, end);
            let deleted_text = rope_byte_slice_string(&self.text, start, end);
            rope_remove(&mut self.text, start_char, end_char);
            rope_insert(&mut self.text, start_char, replacements[k - 1].1.as_str());
            let edit = Edit {
                bytes_range: start..end,
                inserted_text: replacements[k - 1].1.clone(),
                deleted_text,
            };
            proof {
                assert(self.text_view() =~= batch_state(t, reps, (k - 1) as nat));
                assert(edit@ == batch_edits(t, reps)[n - k]);
            }
            edits.push(edit);
            k = k - 1;
        }
        self.set_cursor_offset(previous_cursor);
        let tx = Transaction { edits, previous_cursor, resulting_cursor: self.cursor };
        proof {
            assert(tx@.edits =~= batch_edits(t, reps));
        }
        self.record(tx);
        n
    }

    /// Whether there is a transaction to undo.
    pub fn can_undo(&self) -> (b: bool)
        ensures
            b == (self.undo_view().len() > 0),
    {
        self.history.undo_stack.len() > 0
    }

    /// Whether there is a transaction to redo.
    pub fn can_redo(&self) -> (b: bool)
        ensures
            b == (self.redo_view().len() > 0),
    {
        self.history.redo_stack.len() > 0
    }

    /// Whether `offset` falls on a character boundary of the document (its
    /// end included).
    pub fn is_char_boundary(&self, offset: usize) -> (b: bool)
        ensures
            b == is_char_boundary(self.text_view(), offset as nat),
    {
        let ghost t = self.text_view();
        let len = rope_len_bytes(&self.text);
        if offset > len {
            proof {
                if is_char_boundary(t, offset as nat) {
                    lemma_boundary(t, offset as nat);
                }
            }
            return false;
        }
        let c = rope_byte_to_char(&self.text, offset);
        proof {
            lemma_char_of_byte(t, offset as nat);
            if is_char_boundary(t, offset as nat) {
                lemma_boundary(t, offset as nat);
            }
        }
        rope_char_to_byte(&self.text, c) == offset
    }
}

impl EditorBuffer {
    /// Checks that `offset` lies within the document (its end included).
    pub fn validate_offset(&self, offset: usize) -> (r: Result<(), EditorError>)
        ensures
            r is Ok <==> offset <= byte_len(self.text_view()),
            r matches Err(err) ==> err matches EditorError::OutOfBounds { offset: o, len }
                && o == offset && len == byte_len(self.text_view()),
    {
        let len = rope_len_bytes(&self.text);
        if offset > len {
            return Err(EditorError::OutOfBounds { offset, len });
        }
        Ok(())
    }

    /// Checks that `range` is ordered and lies within the document.
    pub fn validate_range(&self, range: &std::ops::Range<usize>) -> (r: Result<(), EditorError>)
        ensures
            r is Ok <==> range.start <= range.end <= byte_len(self.text_view()),
            r matches Err(err) ==> err matches EditorError::InvalidRange { range: rg, len }
                && rg.start == range.start && rg.end == range.end && len == byte_len(
                self.text_view(),
            ),
    {
        let len = rope_len_bytes(&self.text);
        if range.start > range.end || range.end > len {
            return Err(EditorError::InvalidRange { range: range.start..range.end, len });
        }
        Ok(())
    }

    /// Line `row`, line break included, or an error past the last line.
    pub fn try_line_to_string(&self, row: usize) -> (r: Result<String, EditorError>)
        ensures
            r is Ok <==> row < line_count(self.text_view()),
            r matches Ok(s) ==> s@ == line_text(self.text_view(), row as nat),
            r matches Err(err) ==> err matches EditorError::InvalidRow { row: rw, total_lines }
                && rw == row && total_lines == line_count(self.text_view()),
    {
        let total_lines = rope_len_lines(&self.text);
        if row >= total_lines {
            return Err(EditorError::InvalidRow { row, total_lines });
        }
        Ok(self.line_to_string(row))
    }

    /// Checks a range for an edit: ordered, inside the document, both ends
    /// on character boundaries.
    fn validate_edit_range(&self, range: &std::ops::Range<usize>) -> (r: Result<(), EditorError>)
        ensures
            r is Ok <==> range.start <= range.end <= byte_len(self.text_view()) && is_char_boundary(
                self.text_view(),
                range.start as nat,
            ) && is_char_boundary(self.text_view(), range.end as nat),
            r matches Err(err) ==> if !(range.start <= range.end <= byte_len(self.text_view())) {
                (err matches EditorError::InvalidRange { range: rg, len } && rg.start == range.start
                    && rg.end == range.end && len == byte_len(self.text_view()))
            } else if !is_char_boundary(self.text_view(), range.start as nat) {
                (err matches EditorError::InvalidCharBoundary { offset } && offset == range.start)
            } else {
                (err matches EditorError::InvalidCharBoundary { offset } && offset == range.end)
            },
    {
        self.validate_range(range)?;
        if !self.is_char_boundary(range.start) {
            return Err(EditorError::InvalidCharBoundary { offset: range.start });
        }
        if !self.is_char_boundary(range.end) {
            return Err(EditorError::InvalidCharBoundary { offset: range.end });
        }
        Ok(())
    }

    /// `replace_range` after checking the range: an error (and no change)
    /// when it is reversed, reaches past the document or splits a
    /// character.
    pub fn try_replace_range(&mut self, range: std::ops::Range<usize>, text: &str) -> (r: Result<(), EditorError>)
        requires
            byte_len(old(self).text_view()) + byte_len(text@) <= usize::MAX,
        ensures
            r is Ok <==> range.start <= range.end <= byte_len(old(self).text_view())
                && is_char_boundary(old(self).text_view(), range.start as nat) && is_char_boundary(
                old(self).text_view(),
                range.end as nat,
            ),
            r is Err ==> final(self).text_view() == old(self).text_view() && final(self).cursor_view()
                == old(self).cursor_view() && final(self).undo_view() == old(self).undo_view()
                && final(self).redo_view() == old(self).redo_view() && final(self).version_view()
                == old(self).version_view(),
            r is Ok ==> ({
                let t = old(self).text_view();
                let cs = char_of_byte(t, range.start as nat);
                let ce = char_of_byte(t, range.end as nat);
                &&& final(self).text_view() == insert_at(remove_range(t, cs, ce), cs, text@)
                &&& final(self).cursor_view() == range.start + byte_len(text@)
                &&& final(self).version_view() == next_version(old(self).version_view())
            }),
    {
        match self.validate_edit_range(&range) {
            Err(e) => Err(e),
            Ok(()) => {
                proof {
                    let t = self.text_view();
                    if range.start == range.end {
                        lemma_char_of_byte(t, range.start as nat);
                        assert(remove_range(t, char_of_byte(t, range.start as nat), char_of_byte(t, range.end as nat)) =~= t);
                    }
                }
                self.replace_range(range, text);
                Ok(())
            },
        }
    }

    /// `delete_range` after checking the range: an error (and no change)
    /// when it is reversed, reaches past the document or splits a
    /// character.
    pub fn try_delete_range(&mut self, range: std::ops::Range<usize>) -> (r: Result<(), EditorError>)
        ensures
            r is Ok <==> range.start <= range.end <= byte_len(old(self).text_view())
                && is_char_boundary(old(self).text_view(), range.start as nat) && is_char_boundary(
                old(self).text_view(),
                range.end as nat,
            ),
            r is Err ==> final(self).text_view() == old(self).text_view() && final(self).cursor_view()
                == old(self).cursor_view() && final(self).undo_view() == old(self).undo_view()
                && final(self).redo_view() == old(self).redo_view() && final(self).version_view()
                == old(self).version_view(),
            r is Ok ==> final(self).text_view() == remove_range(
                old(self).text_view(),
                char_of_byte(old(self).text_view(), range.start as nat),
                char_of_byte(old(self).text_view(), range.end as nat),
            ),
    {
        match self.validate_edit_range(&range) {
            Err(e) => Err(e),
            Ok(()) => {
                proof {
                    let t = self.text_view();
                    if range.start == range.end {
                        lemma_char_of_byte(t, range.start as nat);
                        assert(remove_range(t, char_of_byte(t, range.start as nat), char_of_byte(t, range.end as nat)) =~= t);
                    }
                }
                self.delete_range(range);
                Ok(())
            },
        }
    }
}

} // verus!
