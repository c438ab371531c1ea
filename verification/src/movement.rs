//! Character classification for word-boundary detection.
use vstd::prelude::*;
use ropey::Rope;
use crate::rope_text::{
    breaks_upto, char_of_byte, lemma_breaks_mono, lemma_char_of_byte, lemma_line_start_bounds,
    line_count, line_start, rope_byte_to_char, rope_char, rope_char_to_byte, rope_char_to_line,
    rope_len_bytes, rope_len_chars, rope_len_lines, rope_line_to_byte, rope_line_to_char, rope_text,
};
use crate::text::{
    byte_at, byte_len, char_is_alphanumeric, char_is_whitespace, is_alphanumeric_char,
    is_white_space, lemma_byte_at_len, lemma_byte_at_mono,
};

verus! {

/// Character classification used for word-boundary detection.
#[derive(Debug, Clone, Copy, PartialEq, Eq, Structural)]
pub enum CharKind {
    /// Whitespace characters (spaces, tabs, newlines).
    Whitespace,
    /// Alphanumeric characters and underscore.
    Word,
    /// Punctuation and symbols.
    Punctuation,
}

/// The kind of a character.
pub open spec fn char_kind(c: char) -> CharKind {
    if is_white_space(c) {
        CharKind::Whitespace
    } else if is_alphanumeric_char(c) || c == '_' {
        CharKind::Word
    } else {
        CharKind::Punctuation
    }
}

/// Classifies a character into [`CharKind`].
pub fn classify_char(c: char) -> (k: CharKind)
    ensures
        k == char_kind(c),
{
    if char_is_whitespace(c) {
        CharKind::Whitespace
    } else if char_is_alphanumeric(c) || c == '_' {
        CharKind::Word
    } else {
        CharKind::Punctuation
    }
}

/// `\n` or `\r`.
pub open spec fn is_nl(c: char) -> bool {
    c == '\n' || c == '\r'
}

/// Walking back from character index `j` over whitespace that is not a
/// line break: where it stops, and whether a line break stopped it.
pub open spec fn ws_back(t: Seq<char>, j: nat) -> (nat, bool)
    decreases j,
{
    if j == 0 || j > t.len() {
        (j, false)
    } else if is_nl(t[j - 1]) {
        (j, true)
    } else if char_kind(t[j - 1]) != CharKind::Whitespace {
        (j, false)
    } else {
        ws_back(t, (j - 1) as nat)
    }
}

/// Walking back from `j` over characters of kind `k` on the same line.
pub open spec fn kind_back(t: Seq<char>, j: nat, k: CharKind) -> nat
    decreases j,
{
    if j == 0 || j > t.len() {
        j
    } else if is_nl(t[j - 1]) || char_kind(t[j - 1]) != k {
        j
    } else {
        kind_back(t, (j - 1) as nat, k)
    }
}

/// Walking forward from `j` over whitespace that is not a line break.
pub open spec fn ws_fwd(t: Seq<char>, j: nat) -> (nat, bool)
    decreases t.len() - j,
{
    if j >= t.len() {
        (j, false)
    } else if is_nl(t[j as int]) {
        (j, true)
    } else if char_kind(t[j as int]) != CharKind::Whitespace {
        (j, false)
    } else {
        ws_fwd(t, j + 1)
    }
}

/// Walking forward from `j` over characters of kind `k` on the same line.
pub open spec fn kind_fwd(t: Seq<char>, j: nat, k: CharKind) -> nat
    decreases t.len() - j,
{
    if j >= t.len() {
        j
    } else if is_nl(t[j as int]) || char_kind(t[j as int]) != k {
        j
    } else {
        kind_fwd(t, j + 1, k)
    }
}

proof fn lemma_walks(t: Seq<char>, j: nat, k: CharKind)
    ensures
        j <= t.len() ==> ws_back(t, j).0 <= j,
        j <= t.len() ==> kind_back(t, j, k) <= j,
        j <= t.len() ==> j <= ws_fwd(t, j).0 <= t.len(),
        j <= t.len() ==> j <= kind_fwd(t, j, k) <= t.len(),
        j <= t.len() && ws_back(t, j).0 > 0 && !ws_back(t, j).1 ==> ws_back(t, j).0 <= t.len(),
    decreases t.len() + j,
{
    if j > 0 && j <= t.len() {
        lemma_walks_back(t, j, k);
    }
    if j < t.len() {
        lemma_walks_fwd(t, j, k);
    }
}

proof fn lemma_walks_back(t: Seq<char>, j: nat, k: CharKind)
    requires
        j <= t.len(),
    ensures
        ws_back(t, j).0 <= j,
        kind_back(t, j, k) <= j,
    decreases j,
{
    if j > 0 {
        lemma_walks_back(t, (j - 1) as nat, k);
    }
}

proof fn lemma_walks_fwd(t: Seq<char>, j: nat, k: CharKind)
    requires
        j <= t.len(),
    ensures
        j <= ws_fwd(t, j).0 <= t.len(),
        j <= kind_fwd(t, j, k) <= t.len(),
    decreases t.len() - j,
{
    if j < t.len() {
        lemma_walks_fwd(t, j + 1, k);
    }
}

/// Start of the previous word or punctuation run before byte `cursor`
/// (classic `Ctrl+Left`): a line break just before stops there, other
/// whitespace is skipped, then a run of one kind is crossed.
pub open spec fn prev_word_start(t: Seq<char>, cursor: nat) -> nat {
    let b = if cursor <= byte_len(t) {
        cursor
    } else {
        byte_len(t)
    };
    let ci = char_of_byte(t, b);
    if b == 0 || ci == 0 {
        0
    } else if t[ci - 1] == '\n' {
        if ci >= 2 && t[ci - 2] == '\r' {
            byte_at(t, ci - 2)
        } else {
            byte_at(t, ci - 1)
        }
    } else {
        let (j, nl) = ws_back(t, ci);
        if nl {
            byte_at(t, j as int)
        } else if j == 0 {
            0
        } else {
            byte_at(t, kind_back(t, j, char_kind(t[j - 1])) as int)
        }
    }
}

/// End of the current or next word or punctuation run after byte
/// `cursor` (classic `Ctrl+Right`): a line break at the cursor is
/// crossed, other whitespace is skipped, then a run of one kind.
pub open spec fn next_word_end(t: Seq<char>, cursor: nat) -> nat {
    let len = byte_len(t);
    let b = if cursor <= len {
        cursor
    } else {
        len
    };
    let ci = char_of_byte(t, b);
    if b >= len || ci >= t.len() {
        len
    } else if t[ci as int] == '\r' {
        if ci + 1 < t.len() && t[ci + 1int] == '\n' {
            byte_at(t, ci + 2int)
        } else {
            byte_at(t, ci + 1int)
        }
    } else if t[ci as int] == '\n' {
        byte_at(t, ci + 1int)
    } else {
        let (j, nl) = ws_fwd(t, ci);
        if nl {
            byte_at(t, j as int)
        } else if j >= t.len() {
            len
        } else {
            byte_at(t, kind_fwd(t, j, char_kind(t[j as int])) as int)
        }
    }
}

/// Finds the start offset of the previous word (or punctuation token)
/// moving backward from `cursor_byte`.
#[verifier::loop_isolation(false)]
pub fn find_prev_word_start(text: &Rope, cursor_byte: usize) -> (r: usize)
    ensures
        r == prev_word_start(rope_text(*text), cursor_byte as nat),
{
    let ghost t = rope_text(*text);
    let len = rope_len_bytes(text);
    let cursor_byte = if cursor_byte < len {
        cursor_byte
    } else {
        len
    };
    if cursor_byte == 0 {
        return 0;
    }
    let mut char_idx = rope_byte_to_char(text, cursor_byte);
    proof {
        lemma_char_of_byte(t, cursor_byte as nat);
    }
    if char_idx == 0 {
        return 0;
    }
    let prev_c = rope_char(text, char_idx - 1);
    if prev_c == '\n' {
        if char_idx >= 2 && rope_char(text, char_idx - 2) == '\r' {
            return rope_char_to_byte(text, char_idx - 2);
        }
        return rope_char_to_byte(text, char_idx - 1);
    }
    let ghost ci = char_idx;
    while char_idx > 0
        invariant
            char_idx <= ci <= t.len(),
            t == rope_text(*text),
            ws_back(t, char_idx as nat) == ws_back(t, ci as nat),
        decreases char_idx,
    {
        let c = rope_char(text, char_idx - 1);
        if c == '\n' || c == '\r' {
            return rope_char_to_byte(text, char_idx);
        }
        if classify_char(c) != CharKind::Whitespace {
            break;
        }
        char_idx = char_idx - 1;
    }
    if char_idx == 0 {
        return 0;
    }
    let target_kind = classify_char(rope_char(text, char_idx - 1));
    let ghost j = char_idx;
    while char_idx > 0
        invariant
            char_idx <= j <= t.len(),
            t == rope_text(*text),
            kind_back(t, char_idx as nat, target_kind) == kind_back(t, j as nat, target_kind),
        decreases char_idx,
    {
        let c = rope_char(text, char_idx - 1);
        if c == '\n' || c == '\r' || classify_char(c) != target_kind {
            break;
        }
        char_idx = char_idx - 1;
    }
    rope_char_to_byte(text, char_idx)
}

/// Finds the end offset of the current or next word moving forward from
/// `cursor_byte`.
#[verifier::loop_isolation(false)]
pub fn find_next_word_end(text: &Rope, cursor_byte: usize) -> (r: usize)
    ensures
        r == next_word_end(rope_text(*text), cursor_byte as nat),
{
    let ghost t = rope_text(*text);
    let total_bytes = rope_len_bytes(text);
    let cursor_byte = if cursor_byte < total_bytes {
        cursor_byte
    } else {
        total_bytes
    };
    if cursor_byte >= total_bytes {
        return total_bytes;
    }
    let total_chars = rope_len_chars(text);
    let mut char_idx = rope_byte_to_char(text, cursor_byte);
    proof {
        lemma_char_of_byte(t, cursor_byte as nat);
    }
    if char_idx >= total_chars {
        return total_bytes;
    }
    let c = rope_char(text, char_idx);
    if c == '\r' {
        if char_idx + 1 < total_chars && rope_char(text, char_idx + 1) == '\n' {
            return rope_char_to_byte(text, char_idx + 2);
        }
        return rope_char_to_byte(text, char_idx + 1);
    }
    if c == '\n' {
        return rope_char_to_byte(text, char_idx + 1);
    }
    let ghost ci = char_idx;
    while char_idx < total_chars
        invariant
            ci <= char_idx <= t.len() == total_chars,
            t == rope_text(*text),
            ws_fwd(t, char_idx as nat) == ws_fwd(t, ci as nat),
        decreases total_chars - char_idx,
    {
        let c = rope_char(text, char_idx);
        if c == '\n' || c == '\r' {
            return rope_char_to_byte(text, char_idx);
        }
        if classify_char(c) != CharKind::Whitespace {
            break;
        }
        char_idx = char_idx + 1;
    }
    if char_idx >= total_chars {
        return total_bytes;
    }
    let target_kind = classify_char(rope_char(text, char_idx));
    let ghost j = char_idx;
    while char_idx < total_chars
        invariant
            j <= char_idx <= t.len() == total_chars,
            t == rope_text(*text),
            kind_fwd(t, char_idx as nat, target_kind) == kind_fwd(t, j as nat, target_kind),
        decreases total_chars - char_idx,
    {
        let c = rope_char(text, char_idx);
        if c == '\n' || c == '\r' || classify_char(c) != target_kind {
            break;
        }
        char_idx = char_idx + 1;
    }
    rope_char_to_byte(text, char_idx)
}

/// `o` clamped to the end of the text.
pub open spec fn clamp_offset(t: Seq<char>, o: nat) -> nat {
    if o <= byte_len(t) {
        o
    } else {
        byte_len(t)
    }
}

/// Line holding byte `cursor` (clamped to the text's end).
pub open spec fn line_at_byte(t: Seq<char>, cursor: nat) -> nat {
    breaks_upto(t, char_of_byte(t, clamp_offset(t, cursor)))
}

/// Length in characters of line `l` without a trailing `\n` or `\r\n`.
pub open spec fn line_len_without_break(t: Seq<char>, l: nat) -> nat {
    let s = line_start(t, l);
    let n = (line_start(t, l + 1) - s) as nat;
    if n > 0 && t[s + n - 1] == '\n' {
        if n - 1 > 0 && t[s + n - 2] == '\r' {
            (n - 2) as nat
        } else {
            (n - 1) as nat
        }
    } else {
        n
    }
}

/// Returns the byte offset of the beginning of the line containing
/// `cursor_byte`.
pub fn find_line_start(text: &Rope, cursor_byte: usize) -> (r: usize)
    ensures
        r == byte_at(
            rope_text(*text),
            line_start(rope_text(*text), line_at_byte(rope_text(*text), cursor_byte as nat)) as int,
        ),
{
    let ghost t = rope_text(*text);
    let len = rope_len_bytes(text);
    let b = if cursor_byte < len {
        cursor_byte
    } else {
        len
    };
    let char_idx = rope_byte_to_char(text, b);
    proof {
        lemma_char_of_byte(t, b as nat);
        lemma_breaks_mono(t, char_idx as nat, t.len());
    }
    let line_idx = rope_char_to_line(text, char_idx);
    let line_start_char = rope_line_to_char(text, line_idx);
    proof {
        lemma_line_start_bounds(t, line_idx as nat);
    }
    rope_char_to_byte(text, line_start_char)
}

/// Returns the byte offset of the end of the line containing
/// `cursor_byte`, before its `\n` or `\r\n`.
pub fn find_line_end(text: &Rope, cursor_byte: usize) -> (r: usize)
    ensures
        ({
            let t = rope_text(*text);
            let l = line_at_byte(t, cursor_byte as nat);
            r == byte_at(t, (line_start(t, l) + line_len_without_break(t, l)) as int)
        }),
{
    let ghost t = rope_text(*text);
    let len = rope_len_bytes(text);
    let b = if cursor_byte < len {
        cursor_byte
    } else {
        len
    };
    let char_idx = rope_byte_to_char(text, b);
    proof {
        lemma_char_of_byte(t, b as nat);
        lemma_breaks_mono(t, char_idx as nat, t.len());
    }
    let line_idx = rope_char_to_line(text, char_idx);
    proof {
        lemma_line_start_bounds(t, line_idx as nat);
    }
    let line_start_char = rope_line_to_char(text, line_idx);
    let _lines = rope_len_lines(text);
    let next_start = rope_line_to_char(text, line_idx + 1);
    let mut n = next_start - line_start_char;
    if n > 0 && rope_char(text, line_start_char + n - 1) == '\n' {
        n = n - 1;
        if n > 0 && rope_char(text, line_start_char + n - 1) == '\r' {
            n = n - 1;
        }
    }
    rope_char_to_byte(text, line_start_char + n)
}

/// Byte range of the line containing `cursor_byte`, line break included.
pub open spec fn line_range(t: Seq<char>, cursor: nat) -> (nat, nat) {
    if byte_len(t) == 0 {
        (0, 0)
    } else {
        let l = line_at_byte(t, cursor);
        (
            byte_at(t, line_start(t, l) as int),
            if l + 1 < line_count(t) {
                byte_at(t, line_start(t, l + 1) as int)
            } else {
                byte_len(t)
            },
        )
    }
}

/// Returns the byte range of the full line containing `cursor_byte`,
/// including any trailing line terminator.
pub fn find_line_range_at(text: &Rope, cursor_byte: usize) -> (r: std::ops::Range<usize>)
    ensures
        (r.start as nat, r.end as nat) == line_range(rope_text(*text), cursor_byte as nat),
{
    let ghost t = rope_text(*text);
    let total_bytes = rope_len_bytes(text);
    let b = if cursor_byte < total_bytes {
        cursor_byte
    } else {
        total_bytes
    };
    if total_bytes == 0 {
        return 0..0;
    }
    let char_idx = rope_byte_to_char(text, b);
    proof {
        lemma_char_of_byte(t, b as nat);
        lemma_breaks_mono(t, char_idx as nat, t.len());
    }
    let line_idx = rope_char_to_line(text, char_idx);
    let line_start_char = rope_line_to_char(text, line_idx);
    proof {
        lemma_line_start_bounds(t, line_idx as nat);
    }
    let start = rope_char_to_byte(text, line_start_char);
    let n = rope_len_lines(text);
    let end = if line_idx < n - 1 {
        rope_line_to_byte(text, line_idx + 1)
    } else {
        total_bytes
    };
    start..end
}

/// The character whose run is selected for a cursor at character `ci`: a
/// cursor on whitespace or a line break right after a word picks that word.
pub open spec fn word_target(t: Seq<char>, ci: nat) -> Option<nat> {
    if ci >= t.len() || is_nl(t[ci as int]) {
        if ci > 0 && ci <= t.len() && !is_nl(t[ci - 1]) {
            Some((ci - 1) as nat)
        } else {
            None
        }
    } else if char_kind(t[ci as int]) == CharKind::Whitespace && ci > 0 {
        if !is_nl(t[ci - 1]) && char_kind(t[ci - 1]) != CharKind::Whitespace {
            Some((ci - 1) as nat)
        } else {
            Some(ci)
        }
    } else {
        Some(ci)
    }
}

/// Byte range of the word, punctuation run or whitespace run at `cursor`,
/// never crossing a line break.
pub open spec fn word_range(t: Seq<char>, cursor: nat) -> (nat, nat) {
    let b = clamp_offset(t, cursor);
    if byte_len(t) == 0 {
        (0, 0)
    } else {
        match word_target(t, char_of_byte(t, b)) {
            None => (b, b),
            Some(i) => {
                let k = char_kind(t[i as int]);
                (byte_at(t, kind_back(t, i, k) as int), byte_at(t, kind_fwd(t, i + 1, k) as int))
            },
        }
    }
}

/// Finds the byte range of the word, punctuation token, or whitespace run
/// containing `cursor_byte`.
#[verifier::loop_isolation(false)]
pub fn find_word_range_at(text: &Rope, cursor_byte: usize) -> (r: std::ops::Range<usize>)
    ensures
        (r.start as nat, r.end as nat) == word_range(rope_text(*text), cursor_byte as nat),
{
    let ghost t = rope_text(*text);
    let total_bytes = rope_len_bytes(text);
    let cursor_byte = if cursor_byte < total_bytes {
        cursor_byte
    } else {
        total_bytes
    };
    if total_bytes == 0 {
        return 0..0;
    }
    let total_chars = rope_len_chars(text);
    let char_idx = rope_byte_to_char(text, cursor_byte);
    proof {
        lemma_char_of_byte(t, cursor_byte as nat);
    }
    let target_idx = if char_idx >= total_chars {
        if char_idx > 0 {
            let prev = rope_char(text, char_idx - 1);
            if prev != '\n' && prev != '\r' {
                char_idx - 1
            } else {
                return cursor_byte..cursor_byte;
            }
        } else {
            return cursor_byte..cursor_byte;
        }
    } else {
        let curr = rope_char(text, char_idx);
        if curr == '\n' || curr == '\r' {
            if char_idx > 0 {
                let prev = rope_char(text, char_idx - 1);
                if prev != '\n' && prev != '\r' {
                    char_idx - 1
                } else {
                    return cursor_byte..cursor_byte;
                }
            } else {
                return cursor_byte..cursor_byte;
            }
        } else if classify_char(curr) == CharKind::Whitespace && char_idx > 0 {
            let prev = rope_char(text, char_idx - 1);
            if prev != '\n' && prev != '\r' && classify_char(prev) != CharKind::Whitespace {
                char_idx - 1
            } else {
                char_idx
            }
        } else {
            char_idx
        }
    };
    let target_char = rope_char(text, target_idx);
    let target_kind = classify_char(target_char);
    let mut start_idx = target_idx;
    while start_idx > 0
        invariant
            start_idx <= target_idx < t.len(),
            kind_back(t, start_idx as nat, target_kind) == kind_back(t, target_idx as nat, target_kind),
        decreases start_idx,
    {
        let prev = rope_char(text, start_idx - 1);
        if prev == '\n' || prev == '\r' || classify_char(prev) != target_kind {
            break;
        }
        start_idx = start_idx - 1;
    }
    let mut end_idx = target_idx + 1;
    while end_idx < total_chars
        invariant
            target_idx < end_idx <= t.len() == total_chars,
            kind_fwd(t, end_idx as nat, target_kind) == kind_fwd(t, (target_idx + 1) as nat, target_kind),
        decreases total_chars - end_idx,
    {
        let next = rope_char(text, end_idx);
        if next == '\n' || next == '\r' || classify_char(next) != target_kind {
            break;
        }
        end_idx = end_idx + 1;
    }
    let start_byte = rope_char_to_byte(text, start_idx);
    let end_byte = rope_char_to_byte(text, end_idx);
    start_byte..end_byte
}

/// Every offset the word and line searches return is a character boundary.
pub proof fn lemma_word_offsets_are_boundaries(t: Seq<char>, cursor: nat)
    ensures
        crate::rope_text::is_char_boundary(t, prev_word_start(t, cursor)),
        crate::rope_text::is_char_boundary(t, next_word_end(t, cursor)),
        prev_word_start(t, cursor) <= clamp_offset(t, cursor),
        clamp_offset(t, cursor) <= next_word_end(t, cursor) <= byte_len(t),
{
    let b = clamp_offset(t, cursor);
    let ci = char_of_byte(t, b);
    lemma_char_of_byte(t, b);
    lemma_byte_at_len(t);
    lemma_walks(t, ci, CharKind::Word);
    assert(t.take(0) =~= Seq::<char>::empty());
    assert(byte_at(t, 0) == 0);
    assert(crate::rope_text::is_char_boundary(t, 0));
    assert(byte_at(t, t.len() as int) == byte_len(t));
    assert(crate::rope_text::is_char_boundary(t, byte_len(t)));
    if b > 0 && ci > 0 {
        if t[ci - 1] == '\n' {
            if ci >= 2 && t[ci - 2] == '\r' {
                lemma_byte_at_mono(t, ci - 2, ci as int);
                assert(crate::rope_text::is_char_boundary(t, byte_at(t, ci - 2)));
            } else {
                lemma_byte_at_mono(t, ci - 1, ci as int);
                assert(crate::rope_text::is_char_boundary(t, byte_at(t, ci - 1)));
            }
        } else {
            let (j, nl) = ws_back(t, ci);
            lemma_walks_back(t, ci, CharKind::Word);
            if nl {
                lemma_byte_at_mono(t, j as int, ci as int);
                assert(crate::rope_text::is_char_boundary(t, byte_at(t, j as int)));
            } else if j > 0 {
                let k = char_kind(t[j - 1]);
                lemma_walks_back(t, j, k);
                let m = kind_back(t, j, k);
                lemma_byte_at_mono(t, m as int, ci as int);
                assert(crate::rope_text::is_char_boundary(t, byte_at(t, m as int)));
            }
        }
    }
    if b < byte_len(t) && ci < t.len() {
        lemma_byte_at_mono(t, ci as int, t.len() as int);
        if t[ci as int] == '\r' {
            if ci + 1 < t.len() && t[ci + 1int] == '\n' {
                lemma_byte_at_mono(t, ci + 1int, ci + 2int);
                lemma_byte_at_mono(t, ci + 2int, t.len() as int);
                assert(crate::rope_text::is_char_boundary(t, byte_at(t, ci + 2int)));
            } else {
                lemma_byte_at_mono(t, ci + 1int, t.len() as int);
                assert(crate::rope_text::is_char_boundary(t, byte_at(t, ci + 1int)));
            }
        } else if t[ci as int] == '\n' {
            lemma_byte_at_mono(t, ci + 1int, t.len() as int);
            assert(crate::rope_text::is_char_boundary(t, byte_at(t, ci + 1int)));
        } else {
            let (j, nl) = ws_fwd(t, ci);
            lemma_walks_fwd(t, ci, CharKind::Word);
            if nl {
                lemma_walks_fwd(t, ci + 1, CharKind::Word);
                lemma_byte_at_mono(t, ci + 1int, j as int);
                lemma_byte_at_mono(t, j as int, t.len() as int);
                assert(crate::rope_text::is_char_boundary(t, byte_at(t, j as int)));
            } else if j < t.len() {
                let k = char_kind(t[j as int]);
                lemma_walks_fwd(t, j, k);
                let m = kind_fwd(t, j, k);
                lemma_walks_fwd(t, j + 1, k);
                assert(m > ci);
                lemma_byte_at_mono(t, ci + 1int, m as int);
                lemma_byte_at_mono(t, m as int, t.len() as int);
                assert(crate::rope_text::is_char_boundary(t, byte_at(t, m as int)));
            }
        }
    }
}

/// Walking back over blanks that reach a line break stops just after it.
proof fn lemma_ws_back_to_break(t: Seq<char>, j: nat, k: nat)
    requires
        k < j <= t.len(),
        is_nl(t[k as int]),
        forall|m: int| k < m < j ==> !is_nl(#[trigger] t[m]) && char_kind(t[m]) == CharKind::Whitespace,
    ensures
        ws_back(t, j) == (k + 1, true),
    decreases j,
{
    if j > k + 1 {
        assert(!is_nl(t[j - 1]) && char_kind(t[j - 1]) == CharKind::Whitespace);
        lemma_ws_back_to_break(t, (j - 1) as nat, k);
    }
}

/// `Ctrl+Left` never leaves the cursor's line over indentation: when the
/// characters between the cursor and the nearest line break before it are
/// all blanks (at least one), the previous-word start is the offset just
/// after that line break.
pub proof fn law_prev_word_stops_at_line_start(t: Seq<char>, cursor: nat, k: nat)
    requires
        k + 1 < char_of_byte(t, clamp_offset(t, cursor)),
        is_nl(t[k as int]),
        forall|m: int|
            k < m < char_of_byte(t, clamp_offset(t, cursor)) ==> !is_nl(#[trigger] t[m]) && char_kind(t[m])
                == CharKind::Whitespace,
    ensures
        prev_word_start(t, cursor) == byte_at(t, k + 1int),
{
    let b = clamp_offset(t, cursor);
    let ci = char_of_byte(t, b);
    lemma_char_of_byte(t, b);
    assert(t.take(0) =~= Seq::<char>::empty());
    lemma_byte_at_mono(t, 0, ci as int);
    assert(!is_nl(t[ci - 1]));
    lemma_ws_back_to_break(t, ci, k);
}

/// Walking back over blanks from `j` stops after a non-blank character `p`
/// when no line break lies between them.
proof fn lemma_ws_back_stops(t: Seq<char>, j: nat, p: nat)
    requires
        p < j <= t.len(),
        !is_nl(t[p as int]),
        char_kind(t[p as int]) != CharKind::Whitespace,
        forall|m: int| p < m < j ==> !is_nl(#[trigger] t[m]),
    ensures
        !ws_back(t, j).1,
        p < ws_back(t, j).0 <= j,
        forall|m: int| ws_back(t, j).0 <= m < j ==> char_kind(#[trigger] t[m]) == CharKind::Whitespace,
        !is_nl(t[ws_back(t, j).0 - 1]),
        char_kind(t[ws_back(t, j).0 - 1]) != CharKind::Whitespace,
    decreases j,
{
    if j - 1 > p {
        assert(!is_nl(t[j - 1]));
        if char_kind(t[j - 1]) == CharKind::Whitespace {
            lemma_ws_back_stops(t, (j - 1) as nat, p);
        }
    }
}

/// Walking back over characters of kind `k` crosses a maximal run of them
/// on one line.
proof fn lemma_kind_back_run(t: Seq<char>, w: nat, k: CharKind)
    requires
        w <= t.len(),
    ensures
        kind_back(t, w, k) <= w,
        forall|m: int| kind_back(t, w, k) <= m < w ==> !is_nl(#[trigger] t[m]) && char_kind(t[m]) == k,
        kind_back(t, w, k) == 0 || is_nl(t[kind_back(t, w, k) - 1]) || char_kind(t[kind_back(t, w, k) - 1])
            != k,
    decreases w,
{
    if w > 0 && !is_nl(t[w - 1]) && char_kind(t[w - 1]) == k {
        lemma_kind_back_run(t, (w - 1) as nat, k);
    }
}

/// From character `j` to `ci`, all on one line: a maximal run of word or
/// of punctuation characters over `j..w`, then blanks over `w..ci`.
pub open spec fn run_then_blanks(t: Seq<char>, j: nat, w: nat, ci: nat) -> bool {
    &&& j < w <= ci <= t.len()
    &&& char_kind(t[w - 1]) != CharKind::Whitespace
    &&& forall|m: int| w <= m < ci ==> !is_nl(#[trigger] t[m]) && char_kind(t[m]) == CharKind::Whitespace
    &&& forall|m: int| j <= m < w ==> !is_nl(#[trigger] t[m]) && char_kind(t[m]) == char_kind(t[w - 1])
    &&& j == 0 || is_nl(t[j - 1]) || char_kind(t[j - 1]) != char_kind(t[w - 1])
}

/// `Ctrl+Left` with text before the cursor on its line skips the blanks
/// just before the cursor, then exactly one maximal run of word or of
/// punctuation characters, and lands at that run's start.
pub proof fn law_prev_word_crosses_one_run(t: Seq<char>, cursor: nat, p: nat)
    requires
        p < char_of_byte(t, clamp_offset(t, cursor)),
        !is_nl(t[p as int]),
        char_kind(t[p as int]) != CharKind::Whitespace,
        forall|m: int| p < m < char_of_byte(t, clamp_offset(t, cursor)) ==> !is_nl(#[trigger] t[m]),
    ensures
        exists|j: nat, w: nat|
            prev_word_start(t, cursor) == byte_at(t, j as int) && #[trigger] run_then_blanks(
                t,
                j,
                w,
                char_of_byte(t, clamp_offset(t, cursor)),
            ),
{
    let b = clamp_offset(t, cursor);
    let ci = char_of_byte(t, b);
    lemma_char_of_byte(t, b);
    assert(t.take(0) =~= Seq::<char>::empty());
    lemma_byte_at_mono(t, 0, ci as int);
    if p + 1 < ci {
        assert(!is_nl(t[ci - 1]));
    }
    lemma_ws_back_stops(t, ci, p);
    let w = ws_back(t, ci).0;
    let k = char_kind(t[w - 1]);
    lemma_kind_back_run(t, w, k);
    let j = kind_back(t, w, k);
    assert(run_then_blanks(t, j, w, ci));
    assert(prev_word_start(t, cursor) == byte_at(t, j as int));
}

/// Walking forward over blanks from `j` stops at a non-blank character
/// `p` when no line break lies between them.
proof fn lemma_ws_fwd_stops(t: Seq<char>, j: nat, p: nat)
    requires
        j <= p < t.len(),
        !is_nl(t[p as int]),
        char_kind(t[p as int]) != CharKind::Whitespace,
        forall|m: int| j <= m < p ==> !is_nl(#[trigger] t[m]),
    ensures
        !ws_fwd(t, j).1,
        j <= ws_fwd(t, j).0 <= p,
        forall|m: int| j <= m < ws_fwd(t, j).0 ==> char_kind(#[trigger] t[m]) == CharKind::Whitespace,
        !is_nl(t[ws_fwd(t, j).0 as int]),
        char_kind(t[ws_fwd(t, j).0 as int]) != CharKind::Whitespace,
    decreases p - j,
{
    if j < p {
        assert(!is_nl(t[j as int]));
        if char_kind(t[j as int]) == CharKind::Whitespace {
            lemma_ws_fwd_stops(t, j + 1, p);
        }
    }
}

/// Walking forward over characters of kind `k` crosses a maximal run of
/// them on one line.
proof fn lemma_kind_fwd_run(t: Seq<char>, w: nat, k: CharKind)
    requires
        w <= t.len(),
    ensures
        w <= kind_fwd(t, w, k) <= t.len(),
        forall|m: int| w <= m < kind_fwd(t, w, k) ==> !is_nl(#[trigger] t[m]) && char_kind(t[m]) == k,
        kind_fwd(t, w, k) == t.len() || is_nl(t[kind_fwd(t, w, k) as int]) || char_kind(
            t[kind_fwd(t, w, k) as int],
        ) != k,
    decreases t.len() - w,
{
    if w < t.len() && !is_nl(t[w as int]) && char_kind(t[w as int]) == k {
        lemma_kind_fwd_run(t, w + 1, k);
    }
}

/// The cursor's character lies inside the text only when the clamped
/// cursor lies before the text's end.
proof fn lemma_cursor_inside(t: Seq<char>, cursor: nat)
    requires
        char_of_byte(t, clamp_offset(t, cursor)) < t.len(),
    ensures
        clamp_offset(t, cursor) < byte_len(t),
{
    lemma_byte_at_len(t);
    crate::rope_text::lemma_char_of_byte_at(t, t.len());
}

/// From character `ci` to `j`, all on one line: blanks over `ci..w`, then
/// a maximal run of word or of punctuation characters over `w..j`.
pub open spec fn blanks_then_run(t: Seq<char>, ci: nat, w: nat, j: nat) -> bool {
    &&& ci <= w < j <= t.len()
    &&& char_kind(t[w as int]) != CharKind::Whitespace
    &&& forall|m: int| ci <= m < w ==> !is_nl(#[trigger] t[m]) && char_kind(t[m]) == CharKind::Whitespace
    &&& forall|m: int| w <= m < j ==> !is_nl(#[trigger] t[m]) && char_kind(t[m]) == char_kind(t[w as int])
    &&& j == t.len() || is_nl(t[j as int]) || char_kind(t[j as int]) != char_kind(t[w as int])
}

/// `Ctrl+Right` with text after the cursor on its line skips the blanks
/// at the cursor, then exactly one maximal run of word or of punctuation
/// characters, and lands at that run's end.
pub proof fn law_next_word_crosses_one_run(t: Seq<char>, cursor: nat, p: nat)
    requires
        char_of_byte(t, clamp_offset(t, cursor)) <= p < t.len(),
        !is_nl(t[p as int]),
        char_kind(t[p as int]) != CharKind::Whitespace,
        forall|m: int| char_of_byte(t, clamp_offset(t, cursor)) <= m < p ==> !is_nl(#[trigger] t[m]),
    ensures
        exists|w: nat, j: nat|
            next_word_end(t, cursor) == byte_at(t, j as int) && #[trigger] blanks_then_run(
                t,
                char_of_byte(t, clamp_offset(t, cursor)),
                w,
                j,
            ),
{
    let ci = char_of_byte(t, clamp_offset(t, cursor));
    lemma_cursor_inside(t, cursor);
    if ci < p {
        assert(!is_nl(t[ci as int]));
    }
    lemma_ws_fwd_stops(t, ci, p);
    let w = ws_fwd(t, ci).0;
    let k = char_kind(t[w as int]);
    lemma_kind_fwd_run(t, w, k);
    let j = kind_fwd(t, w, k);
    lemma_next_word_end_run(t, cursor, w);
    assert(blanks_then_run(t, ci, w, j));
}

/// Where `Ctrl+Right` lands once the blanks at the cursor end at `w`.
proof fn lemma_next_word_end_run(t: Seq<char>, cursor: nat, w: nat)
    requires
        clamp_offset(t, cursor) < byte_len(t),
        char_of_byte(t, clamp_offset(t, cursor)) < t.len(),
        !is_nl(t[char_of_byte(t, clamp_offset(t, cursor)) as int]),
        ws_fwd(t, char_of_byte(t, clamp_offset(t, cursor))) == (w, false),
        w < t.len(),
    ensures
        next_word_end(t, cursor) == byte_at(t, kind_fwd(t, w, char_kind(t[w as int])) as int),
{
}

/// Walking back over blanks that reach the text's start stops there.
proof fn lemma_ws_back_to_start(t: Seq<char>, j: nat)
    requires
        j <= t.len(),
        forall|m: int| 0 <= m < j ==> !is_nl(#[trigger] t[m]) && char_kind(t[m]) == CharKind::Whitespace,
    ensures
        ws_back(t, j) == (0nat, false),
    decreases j,
{
    if j > 0 {
        lemma_ws_back_to_start(t, (j - 1) as nat);
    }
}

/// `Ctrl+Left` right after a line break lands on that break (on the `\r`
/// of a `\r\n` pair); with only blanks before the cursor on the text's
/// first line it lands at the start of the text.
pub proof fn law_prev_word_at_line_edges(t: Seq<char>, cursor: nat)
    ensures
        ({
            let ci = char_of_byte(t, clamp_offset(t, cursor));
            &&& ci > 0 && t[ci - 1] == '\n' ==> prev_word_start(t, cursor) == if ci >= 2 && t[ci - 2] == '\r' {
                byte_at(t, ci - 2)
            } else {
                byte_at(t, ci - 1)
            }
            &&& (forall|m: int| 0 <= m < ci ==> !is_nl(#[trigger] t[m]) && char_kind(t[m]) == CharKind::Whitespace)
                ==> prev_word_start(t, cursor) == 0
        }),
{
    let b = clamp_offset(t, cursor);
    let ci = char_of_byte(t, b);
    lemma_char_of_byte(t, b);
    assert(t.take(0) =~= Seq::<char>::empty());
    if ci > 0 {
        lemma_byte_at_mono(t, 0, ci as int);
    }
    if forall|m: int| 0 <= m < ci ==> !is_nl(#[trigger] t[m]) && char_kind(t[m]) == CharKind::Whitespace {
        lemma_ws_back_to_start(t, ci);
        if ci > 0 {
            assert(!is_nl(t[ci - 1]));
        }
    }
}

/// Walking forward over blanks that reach a line break stops at it.
proof fn lemma_ws_fwd_to_break(t: Seq<char>, j: nat, k: nat)
    requires
        j <= k < t.len(),
        is_nl(t[k as int]),
        forall|m: int| j <= m < k ==> !is_nl(#[trigger] t[m]) && char_kind(t[m]) == CharKind::Whitespace,
    ensures
        ws_fwd(t, j) == (k, true),
    decreases k - j,
{
    if j < k {
        assert(!is_nl(t[j as int]));
        lemma_ws_fwd_to_break(t, j + 1, k);
    }
}

/// Walking forward over blanks that reach the text's end stops there.
proof fn lemma_ws_fwd_to_end(t: Seq<char>, j: nat)
    requires
        j <= t.len(),
        forall|m: int| j <= m < t.len() ==> !is_nl(#[trigger] t[m]) && char_kind(t[m]) == CharKind::Whitespace,
    ensures
        ws_fwd(t, j) == (t.len(), false),
    decreases t.len() - j,
{
    if j < t.len() {
        lemma_ws_fwd_to_end(t, j + 1);
    }
}

/// `Ctrl+Right` at a line break crosses it (both characters of `\r\n`);
/// over trailing blanks it stops at the next line break, or at the text's
/// end when none follows.
pub proof fn law_next_word_at_line_edges(t: Seq<char>, cursor: nat, k: nat)
    ensures
        ({
            let ci = char_of_byte(t, clamp_offset(t, cursor));
            &&& ci < t.len() && t[ci as int] == '\n' ==> next_word_end(t, cursor) == byte_at(t, ci + 1int)
            &&& ci + 1 < t.len() && t[ci as int] == '\r' && t[ci + 1int] == '\n' ==> next_word_end(t, cursor)
                == byte_at(t, ci + 2int)
            &&& ci < k < t.len() && is_nl(t[k as int]) && (forall|m: int|
                ci <= m < k ==> !is_nl(#[trigger] t[m]) && char_kind(t[m]) == CharKind::Whitespace) ==> next_word_end(
                t,
                cursor,
            ) == byte_at(t, k as int)
            &&& (forall|m: int| ci <= m < t.len() ==> !is_nl(#[trigger] t[m]) && char_kind(t[m]) == CharKind::Whitespace)
                ==> next_word_end(t, cursor) == byte_len(t)
        }),
{
    let b = clamp_offset(t, cursor);
    let ci = char_of_byte(t, b);
    lemma_char_of_byte(t, b);
    lemma_byte_at_len(t);
    if ci < t.len() {
        lemma_cursor_inside(t, cursor);
    }
    if ci < k < t.len() && is_nl(t[k as int]) && (forall|m: int|
        ci <= m < k ==> !is_nl(#[trigger] t[m]) && char_kind(t[m]) == CharKind::Whitespace) {
        assert(!is_nl(t[ci as int]));
        lemma_ws_fwd_to_break(t, ci, k);
    }
    if forall|m: int| ci <= m < t.len() ==> !is_nl(#[trigger] t[m]) && char_kind(t[m]) == CharKind::Whitespace {
        lemma_ws_fwd_to_end(t, ci);
        if ci < t.len() {
            assert(!is_nl(t[ci as int]));
        }
    }
}

} // verus!
