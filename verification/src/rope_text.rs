//! The text model of a `ropey::Rope`: its characters, char/byte index
//! conversion and line structure, and the trusted items that call ropey.
use vstd::prelude::*;
use ropey::Rope;
use crate::text::{byte_at, byte_len, char_width, lemma_byte_at_len, lemma_byte_at_mono, lemma_byte_at_step};

verus! {

#[verifier::external_type_specification]
#[verifier::external_body]
pub struct ExRope(Rope);

/// The characters a rope holds.
pub uninterp spec fn rope_text(r: Rope) -> Seq<char>;

/// Number of characters of `t` that end at or before byte `b`.
pub open spec fn chars_before(t: Seq<char>, b: nat, n: nat) -> nat
    decreases n,
{
    if n == 0 {
        0
    } else {
        chars_before(t, b, (n - 1) as nat) + if byte_at(t, n as int) <= b {
            1nat
        } else {
            0nat
        }
    }
}

/// Index of the character that byte `b` belongs to (the character count
/// when `b` is the end of the text).
pub open spec fn char_of_byte(t: Seq<char>, b: nat) -> nat {
    chars_before(t, b, t.len())
}

/// `char_of_byte` is the character whose byte span holds `b`.
pub proof fn lemma_chars_before(t: Seq<char>, b: nat, n: nat)
    requires
        n <= t.len(),
    ensures
        chars_before(t, b, n) <= n,
        byte_at(t, chars_before(t, b, n) as int) <= b,
        chars_before(t, b, n) < n ==> b < byte_at(t, chars_before(t, b, n) + 1int),
    decreases n,
{
    if n > 0 {
        lemma_chars_before(t, b, (n - 1) as nat);
        let c = chars_before(t, b, (n - 1) as nat);
        if byte_at(t, n as int) <= b && c < n - 1 {
            lemma_byte_at_mono(t, c + 1int, n as int);
        }
    }
    assert(t.take(0) =~= Seq::<char>::empty());
}

/// Characterisation of [`char_of_byte`].
pub proof fn lemma_char_of_byte(t: Seq<char>, b: nat)
    ensures
        char_of_byte(t, b) <= t.len(),
        byte_at(t, char_of_byte(t, b) as int) <= b,
        char_of_byte(t, b) < t.len() ==> b < byte_at(t, char_of_byte(t, b) + 1int),
{
    lemma_chars_before(t, b, t.len());
}

/// A byte inside character `k` (from its first byte up to, not including,
/// the next character's) belongs to character `k`.
pub proof fn lemma_char_of_byte_within(t: Seq<char>, b: nat, k: nat)
    requires
        k < t.len(),
        byte_at(t, k as int) <= b < byte_at(t, k + 1int),
    ensures
        char_of_byte(t, b) == k,
{
    lemma_char_of_byte(t, b);
    let j = char_of_byte(t, b);
    if j < k {
        lemma_byte_at_mono(t, j + 1int, k as int);
    } else if j > k {
        lemma_byte_at_mono(t, k + 1int, j as int);
    }
}

/// At a character boundary, `char_of_byte` gives back the character index.
pub proof fn lemma_char_of_byte_at(t: Seq<char>, c: nat)
    requires
        c <= t.len(),
    ensures
        char_of_byte(t, byte_at(t, c as int)) == c,
{
    lemma_char_of_byte(t, byte_at(t, c as int));
    let k = char_of_byte(t, byte_at(t, c as int));
    if k < c {
        lemma_byte_at_mono(t, k + 1int, c as int);
    } else if k > c {
        lemma_byte_at_mono(t, c as int, k as int);
    }
}

/// `char_of_byte` grows with the byte offset.
pub proof fn lemma_char_of_byte_mono(t: Seq<char>, a: nat, b: nat)
    requires
        a <= b,
    ensures
        char_of_byte(t, a) <= char_of_byte(t, b),
{
    lemma_chars_before_mono(t, a, b, t.len());
}

proof fn lemma_chars_before_mono(t: Seq<char>, a: nat, b: nat, n: nat)
    requires
        a <= b,
    ensures
        chars_before(t, a, n) <= chars_before(t, b, n),
    decreases n,
{
    if n > 0 {
        lemma_chars_before_mono(t, a, b, (n - 1) as nat);
    }
}

/// Byte `b` starts a character of `t` (or is its end).
pub open spec fn is_char_boundary(t: Seq<char>, b: nat) -> bool {
    exists|c: nat| c <= t.len() && #[trigger] byte_at(t, c as int) == b
}

/// Characters ropey (with its default `unicode_lines`) ends lines with.
pub open spec fn is_line_break(c: char) -> bool {
    c == '\n' || c == '\r' || c == '\u{0B}' || c == '\u{0C}' || c == '\u{85}' || c == '\u{2028}'
        || c == '\u{2029}'
}

/// A line break ends just before character index `i` (a `\r\n` pair is
/// one break).
pub open spec fn break_ends_at(t: Seq<char>, i: int) -> bool {
    1 <= i <= t.len() && is_line_break(t[i - 1]) && !(t[i - 1] == '\r' && i < t.len() && t[i]
        == '\n')
}

/// Number of line breaks ending at or before character index `n`.
pub open spec fn breaks_upto(t: Seq<char>, n: nat) -> nat
    decreases n,
{
    if n == 0 {
        0
    } else {
        breaks_upto(t, (n - 1) as nat) + if break_ends_at(t, n as int) {
            1nat
        } else {
            0nat
        }
    }
}

/// Number of lines: one more than the number of line breaks.
pub open spec fn line_count(t: Seq<char>) -> nat {
    breaks_upto(t, t.len()) + 1
}

/// First character index at or after `i` with at least `l` line breaks
/// before it (the text length when none).
pub open spec fn first_reach(t: Seq<char>, l: nat, i: nat) -> nat
    decreases t.len() - i,
{
    if i >= t.len() {
        t.len()
    } else if breaks_upto(t, i) >= l {
        i
    } else {
        first_reach(t, l, i + 1)
    }
}

/// Character index where line `l` starts.
pub open spec fn line_start(t: Seq<char>, l: nat) -> nat {
    first_reach(t, l, 0)
}

/// The characters of line `l`, its line break included.
pub open spec fn line_text(t: Seq<char>, l: nat) -> Seq<char> {
    t.subrange(line_start(t, l) as int, line_start(t, l + 1) as int)
}

/// Line breaks only accumulate.
pub proof fn lemma_breaks_mono(t: Seq<char>, i: nat, j: nat)
    requires
        i <= j,
    ensures
        breaks_upto(t, i) <= breaks_upto(t, j),
    decreases j - i,
{
    if i < j {
        lemma_breaks_mono(t, i, (j - 1) as nat);
    }
}

/// `first_reach` stays inside the text and stops no later than any index
/// that already has `l` breaks before it.
pub proof fn lemma_first_reach(t: Seq<char>, l: nat, i: nat, c: nat)
    requires
        i <= c <= t.len(),
        breaks_upto(t, c) >= l,
    ensures
        i <= first_reach(t, l, i) <= c,
    decreases t.len() - i,
{
    if i < t.len() && breaks_upto(t, i) < l {
        if i == c {
        } else {
            lemma_first_reach(t, l, i + 1, c);
        }
    }
}

/// `first_reach` never passes the end of the text.
pub proof fn lemma_first_reach_bound(t: Seq<char>, l: nat, i: nat)
    requires
        i <= t.len(),
    ensures
        i <= first_reach(t, l, i) <= t.len(),
    decreases t.len() - i,
{
    if i < t.len() && breaks_upto(t, i) < l {
        lemma_first_reach_bound(t, l, i + 1);
    }
}

/// Later lines start no earlier.
pub proof fn lemma_first_reach_mono(t: Seq<char>, l: nat, m: nat, i: nat)
    requires
        l <= m,
        i <= t.len(),
    ensures
        first_reach(t, l, i) <= first_reach(t, m, i),
    decreases t.len() - i,
{
    if i < t.len() && breaks_upto(t, i) < m {
        if breaks_upto(t, i) >= l {
            lemma_first_reach_bound(t, m, i);
        } else {
            lemma_first_reach_mono(t, l, m, i + 1);
        }
    }
}

/// The start of the line holding character `c` is at or before `c`.
pub proof fn lemma_line_start_le(t: Seq<char>, c: nat)
    requires
        c <= t.len(),
    ensures
        line_start(t, breaks_upto(t, c)) <= c,
{
    lemma_first_reach(t, breaks_upto(t, c), 0, c);
}

/// Line starts ascend and stay inside the text.
pub proof fn lemma_line_start_bounds(t: Seq<char>, l: nat)
    ensures
        line_start(t, l) <= line_start(t, l + 1) <= t.len(),
{
    lemma_first_reach_mono(t, l, l + 1, 0);
    lemma_first_reach_bound(t, l + 1, 0);
}

/// Byte length of a slice is the difference of its end offsets.
pub proof fn lemma_byte_len_subrange(t: Seq<char>, a: int, b: int)
    requires
        0 <= a <= b <= t.len(),
    ensures
        byte_len(t.subrange(a, b)) == byte_at(t, b) - byte_at(t, a),
{
    crate::text::lemma_byte_len_concat(t.take(a), t.subrange(a, b));
    assert(t.take(a) + t.subrange(a, b) =~= t.take(b));
}

/// `Rope::from_str`: the rope holds exactly the characters of `s`.
#[verifier::external_body]
pub(crate) fn rope_from_str(s: &str) -> (r: Rope)
    ensures
        rope_text(r) == s@,
{
    Rope::from_str(s)
}

/// `Rope::len_bytes`: the UTF-8 length of the text.
#[verifier::external_body]
pub(crate) fn rope_len_bytes(r: &Rope) -> (n: usize)
    ensures
        n == byte_len(rope_text(*r)),
{
    r.len_bytes()
}

/// `Rope::len_chars`: the number of characters.
#[verifier::external_body]
pub(crate) fn rope_len_chars(r: &Rope) -> (n: usize)
    ensures
        n == rope_text(*r).len(),
{
    r.len_chars()
}

/// `Rope::len_lines`: one more than the number of line breaks.
#[verifier::external_body]
pub(crate) fn rope_len_lines(r: &Rope) -> (n: usize)
    ensures
        n == line_count(rope_text(*r)),
{
    r.len_lines()
}

/// `Rope::byte_to_char`: the index of the character byte `b` belongs to;
/// panics past the end, which the precondition rules out.
#[verifier::external_body]
pub(crate) fn rope_byte_to_char(r: &Rope, b: usize) -> (c: usize)
    requires
        b <= byte_len(rope_text(*r)),
    ensures
        c == char_of_byte(rope_text(*r), b as nat),
{
    r.byte_to_char(b)
}

/// `Rope::char_to_byte`: the byte offset of character `c`.
#[verifier::external_body]
pub(crate) fn rope_char_to_byte(r: &Rope, c: usize) -> (b: usize)
    requires
        c <= rope_text(*r).len(),
    ensures
        b == byte_at(rope_text(*r), c as int),
{
    r.char_to_byte(c)
}

/// `Rope::byte_to_line`: the number of line breaks before the character
/// byte `b` belongs to.
#[verifier::external_body]
pub(crate) fn rope_byte_to_line(r: &Rope, b: usize) -> (l: usize)
    requires
        b <= byte_len(rope_text(*r)),
    ensures
        l == breaks_upto(rope_text(*r), char_of_byte(rope_text(*r), b as nat)),
{
    r.byte_to_line(b)
}

/// `Rope::char_to_line`: the number of line breaks before character `c`.
#[verifier::external_body]
pub(crate) fn rope_char_to_line(r: &Rope, c: usize) -> (l: usize)
    requires
        c <= rope_text(*r).len(),
    ensures
        l == breaks_upto(rope_text(*r), c as nat),
{
    r.char_to_line(c)
}

/// `Rope::line_to_byte`: the byte offset where line `l` starts.
#[verifier::external_body]
pub(crate) fn rope_line_to_byte(r: &Rope, l: usize) -> (b: usize)
    requires
        l <= line_count(rope_text(*r)),
    ensures
        b == byte_at(rope_text(*r), line_start(rope_text(*r), l as nat) as int),
{
    r.line_to_byte(l)
}

/// `Rope::line_to_char`: the character index where line `l` starts.
#[verifier::external_body]
pub(crate) fn rope_line_to_char(r: &Rope, l: usize) -> (c: usize)
    requires
        l <= line_count(rope_text(*r)),
    ensures
        c == line_start(rope_text(*r), l as nat),
{
    r.line_to_char(l)
}

/// `Rope::char`: the character at index `c`.
#[verifier::external_body]
pub(crate) fn rope_char(r: &Rope, c: usize) -> (ch: char)
    requires
        c < rope_text(*r).len(),
    ensures
        ch == rope_text(*r)[c as int],
{
    r.char(c)
}

/// `Rope::line`, rendered as a `String`: line `l` with its line break.
#[verifier::external_body]
pub(crate) fn rope_line_string(r: &Rope, l: usize) -> (s: String)
    requires
        l < line_count(rope_text(*r)),
    ensures
        s@ == line_text(rope_text(*r), l as nat),
{
    r.line(l).to_string()
}

/// `Rope::byte_slice`, rendered as a `String`: the characters between two
/// character boundaries.
#[verifier::external_body]
pub(crate) fn rope_byte_slice_string(r: &Rope, start: usize, end: usize) -> (s: String)
    requires
        start <= end <= byte_len(rope_text(*r)),
        is_char_boundary(rope_text(*r), start as nat),
        is_char_boundary(rope_text(*r), end as nat),
    ensures
        s@ == rope_text(*r).subrange(
            char_of_byte(rope_text(*r), start as nat) as int,
            char_of_byte(rope_text(*r), end as nat) as int,
        ),
{
    r.byte_slice(start..end).to_string()
}

/// `Rope::insert`: `s` goes in before character `c`.
#[verifier::external_body]
pub(crate) fn rope_insert(r: &mut Rope, c: usize, s: &str)
    requires
        c <= rope_text(*old(r)).len(),
    ensures
        rope_text(*final(r)) == rope_text(*old(r)).take(c as int) + s@ + rope_text(*old(r)).skip(
            c as int,
        ),
{
    r.insert(c, s)
}

/// `Rope::remove`: characters `start..end` go away.
#[verifier::external_body]
pub(crate) fn rope_remove(r: &mut Rope, start: usize, end: usize)
    requires
        start <= end <= rope_text(*old(r)).len(),
    ensures
        rope_text(*final(r)) == rope_text(*old(r)).take(start as int) + rope_text(*old(r)).skip(
            end as int,
        ),
{
    r.remove(start..end)
}

/// The rope's text as a `String` (`ToString` through `Display`).
#[verifier::external_body]
pub(crate) fn rope_to_string(r: &Rope) -> (s: String)
    ensures
        s@ == rope_text(*r),
{
    r.to_string()
}

} // verus!
