//! Character and byte-offset helpers shared by the line-oriented parsers.
//!
//! Text is modelled as a sequence of `char`s; byte offsets are UTF-8 offsets
//! computed from the per-character encoded width.
use vstd::prelude::*;

verus! {

/// Number of bytes in the UTF-8 encoding of `c`.
pub open spec fn char_width(c: char) -> nat {
    if (c as u32) < 0x80 {
        1
    } else if (c as u32) < 0x800 {
        2
    } else if (c as u32) < 0x10000 {
        3
    } else {
        4
    }
}

/// Number of bytes in the UTF-8 encoding of `s`.
pub open spec fn byte_len(s: Seq<char>) -> nat
    decreases s.len(),
{
    if s.len() == 0 {
        0
    } else {
        byte_len(s.drop_last()) + char_width(s.last())
    }
}

/// Byte offset of the character at index `i` in `s`.
pub open spec fn byte_at(s: Seq<char>, i: int) -> nat {
    byte_len(s.take(i))
}

/// Extending a prefix by one character adds that character's width.
pub proof fn lemma_byte_at_step(s: Seq<char>, i: int)
    requires
        0 <= i < s.len(),
    ensures
        byte_at(s, i + 1) == byte_at(s, i) + char_width(s[i]),
{
    assert(s.take(i + 1).drop_last() =~= s.take(i));
}

/// Byte offsets grow with the character index.
pub proof fn lemma_byte_at_mono(s: Seq<char>, i: int, j: int)
    requires
        0 <= i <= j <= s.len(),
    ensures
        byte_at(s, i) <= byte_at(s, j),
        i < j ==> byte_at(s, i) < byte_at(s, j),
    decreases j - i,
{
    if i < j {
        lemma_byte_at_step(s, j - 1);
        lemma_byte_at_mono(s, i, j - 1);
    }
}

/// The whole sequence is its own prefix of full length.
pub proof fn lemma_byte_at_len(s: Seq<char>)
    ensures
        byte_at(s, s.len() as int) == byte_len(s),
{
    assert(s.take(s.len() as int) =~= s);
}

/// A prefix is never longer in bytes than the whole.
pub proof fn lemma_byte_len_prefix(s: Seq<char>, i: int)
    requires
        0 <= i <= s.len(),
    ensures
        byte_len(s.take(i)) <= byte_len(s),
{
    lemma_byte_at_mono(s, i, s.len() as int);
    lemma_byte_at_len(s);
}

/// A single character's byte length is its width.
pub proof fn lemma_byte_len_single(c: char)
    ensures
        byte_len(seq![c]) == char_width(c),
{
    assert(seq![c].drop_last() =~= Seq::<char>::empty());
    reveal_with_fuel(byte_len, 2);
}

/// Byte length of a concatenation is the sum of the byte lengths.
pub proof fn lemma_byte_len_concat(a: Seq<char>, b: Seq<char>)
    ensures
        byte_len(a + b) == byte_len(a) + byte_len(b),
    decreases b.len(),
{
    if b.len() == 0 {
        assert(a + b =~= a);
    } else {
        assert((a + b).drop_last() =~= a + b.drop_last());
        lemma_byte_len_concat(a, b.drop_last());
    }
}

/// The byte length of a string slice (`str::len`).
///
/// Trusted: `str::len` is the length of the UTF-8 encoding in bytes, and
/// as a `usize` that length fits in one.
#[verifier::external_body]
pub fn str_byte_len(s: &str) -> (n: usize)
    ensures
        n == byte_len(s@),
{
    s.len()
}

/// Every character takes at least one byte.
pub proof fn lemma_byte_len_ge_len(s: Seq<char>)
    ensures
        byte_len(s) >= s.len(),
    decreases s.len(),
{
    if s.len() > 0 {
        lemma_byte_len_ge_len(s.drop_last());
    }
}

/// UTF-8 encoded width of `c`, as `char::len_utf8` reports it.
pub fn char_len_utf8(c: char) -> (n: usize)
    ensures
        n == char_width(c),
        1 <= n <= 4,
{
    let v = c as u32;
    if v < 0x80 {
        1
    } else if v < 0x800 {
        2
    } else if v < 0x10000 {
        3
    } else {
        4
    }
}

/// Byte offset of every character boundary of `s`: entry `i` is the offset
/// of character `i`, and the last entry is the total byte length.
pub fn char_offsets(s: &Vec<char>) -> (offs: Vec<usize>)
    requires
        byte_len(s@) <= usize::MAX,
    ensures
        offs@.len() == s@.len() + 1,
        forall|i: int| 0 <= i <= s@.len() ==> offs@[i] == byte_at(s@, i),
{
    let mut offs: Vec<usize> = Vec::new();
    let mut acc: usize = 0;
    let mut i: usize = 0;
    proof {
        assert(s@.take(0) =~= Seq::<char>::empty());
    }
    while i < s.len()
        invariant
            0 <= i <= s@.len(),
            offs@.len() == i,
            acc == byte_at(s@, i as int),
            byte_len(s@) <= usize::MAX,
            forall|k: int| 0 <= k < i ==> offs@[k] == byte_at(s@, k),
        decreases s@.len() - i,
    {
        offs.push(acc);
        proof {
            lemma_byte_at_step(s@, i as int);
            lemma_byte_at_mono(s@, i as int + 1, s@.len() as int);
            lemma_byte_at_len(s@);
        }
        let w = char_len_utf8(s[i]);
        acc = acc + w;
        i = i + 1;
    }
    offs.push(acc);
    offs
}

/// Collects the characters of `s` (`str::chars`).
///
/// Trusted: the collected vector holds exactly the characters of `s` in
/// order, and the UTF-8 length of any `str` fits in a `usize`.
#[verifier::external_body]
pub fn str_chars(s: &str) -> (v: Vec<char>)
    ensures
        v@ == s@,
        byte_len(v@) <= usize::MAX,
{
    s.chars().collect()
}

/// Builds a `String` from characters (`FromIterator<char> for String`).
///
/// Trusted: the resulting string holds exactly the given characters.
#[verifier::external_body]
pub fn chars_to_string(v: &Vec<char>) -> (s: String)
    ensures
        s@ == v@,
{
    v.iter().collect()
}

/// String equality (`<str as PartialEq>::eq`).
///
/// Trusted: two string slices compare equal exactly when they hold the
/// same characters.
#[verifier::external_body]
pub fn str_eq(a: &str, b: &str) -> (r: bool)
    ensures
        r == (a@ == b@),
{
    a == b
}

/// Whether `c` carries the Unicode `White_Space` property (the
/// characters `char::is_whitespace` accepts): U+0009..=U+000D, space,
/// U+0085, U+00A0, U+1680, U+2000..=U+200A, U+2028, U+2029, U+202F,
/// U+205F and U+3000.
pub open spec fn is_white_space(c: char) -> bool {
    let u = c as u32;
    ||| (0x09 <= u && u <= 0x0D)
    ||| u == 0x20
    ||| u == 0x85
    ||| u == 0xA0
    ||| u == 0x1680
    ||| (0x2000 <= u && u <= 0x200A)
    ||| u == 0x2028
    ||| u == 0x2029
    ||| u == 0x202F
    ||| u == 0x205F
    ||| u == 0x3000
}

/// Whether `c` is alphabetic or numeric in the Unicode sense.
pub uninterp spec fn is_alphanumeric_char(c: char) -> bool;

/// ASCII whitespace in the `White_Space` sense: space and U+0009..=U+000D.
pub open spec fn ascii_white_space(c: char) -> bool {
    c == ' ' || (0x09 <= (c as u32) && (c as u32) <= 0x0D)
}

/// ASCII letters and digits.
pub open spec fn ascii_alphanumeric(c: char) -> bool {
    ('a' <= c && c <= 'z') || ('A' <= c && c <= 'Z') || ('0' <= c && c <= '9')
}

/// Whether `c` is whitespace (see [`is_white_space`]).
pub fn char_is_whitespace(c: char) -> (r: bool)
    ensures
        r == is_white_space(c),
        (c as u32) < 0x80 ==> (r <==> ascii_white_space(c)),
{
    let u = c as u32;
    (0x09 <= u && u <= 0x0D) || u == 0x20 || u == 0x85 || u == 0xA0 || u == 0x1680 || (0x2000 <= u
        && u <= 0x200A) || u == 0x2028 || u == 0x2029 || u == 0x202F || u == 0x205F || u == 0x3000
}

/// `char::is_alphanumeric`.
///
/// Trusted: the result is the Unicode alphabetic-or-numeric property of
/// `c`; on ASCII input it holds exactly for letters and digits. Which
/// non-ASCII characters carry it is left to the name.
#[verifier::external_body]
pub fn char_is_alphanumeric(c: char) -> (r: bool)
    ensures
        r == is_alphanumeric_char(c),
        (c as u32) < 0x80 ==> (r <==> ascii_alphanumeric(c)),
{
    c.is_alphanumeric()
}

/// Characters of the decimal representation of `n`, most significant first.
pub open spec fn decimal_digits(n: nat) -> Seq<char>
    decreases n,
{
    if n < 10 {
        seq![digit_char(n)]
    } else {
        decimal_digits(n / 10).push(digit_char(n % 10))
    }
}

/// The ASCII digit for `d < 10`.
pub open spec fn digit_char(d: nat) -> char {
    if d == 0 { '0' }
    else if d == 1 { '1' }
    else if d == 2 { '2' }
    else if d == 3 { '3' }
    else if d == 4 { '4' }
    else if d == 5 { '5' }
    else if d == 6 { '6' }
    else if d == 7 { '7' }
    else if d == 8 { '8' }
    else { '9' }
}

fn digit_char_exec(d: usize) -> (c: char)
    requires
        d < 10,
    ensures
        c == digit_char(d as nat),
{
    if d == 0 { '0' }
    else if d == 1 { '1' }
    else if d == 2 { '2' }
    else if d == 3 { '3' }
    else if d == 4 { '4' }
    else if d == 5 { '5' }
    else if d == 6 { '6' }
    else if d == 7 { '7' }
    else if d == 8 { '8' }
    else { '9' }
}

/// Appends the decimal digits of `n` to `out`.
pub fn push_decimal(out: &mut Vec<char>, n: usize)
    ensures
        final(out)@ == old(out)@ + decimal_digits(n as nat),
    decreases n,
{
    if n < 10 {
        out.push(digit_char_exec(n));
    } else {
        push_decimal(out, n / 10);
        out.push(digit_char_exec(n % 10));
    }
}

/// Appends every character of `s` to `out`.
pub fn push_all(out: &mut Vec<char>, s: &Vec<char>)
    ensures
        final(out)@ == old(out)@ + s@,
{
    let mut i: usize = 0;
    while i < s.len()
        invariant
            0 <= i <= s@.len(),
            out@ == old(out)@ + s@.take(i as int),
        decreases s@.len() - i,
    {
        proof {
            assert(s@.take(i as int + 1) =~= s@.take(i as int).push(s@[i as int]));
        }
        out.push(s[i]);
        i = i + 1;
    }
    proof {
        assert(s@.take(s@.len() as int) =~= s@);
    }
}

/// The characters of `v` from index `lo` up to `hi`.
pub fn slice_chars(v: &Vec<char>, lo: usize, hi: usize) -> (r: Vec<char>)
    requires
        lo <= hi <= v@.len(),
    ensures
        r@ == v@.subrange(lo as int, hi as int),
{
    let mut r: Vec<char> = Vec::new();
    let mut i: usize = lo;
    while i < hi
        invariant
            lo <= i <= hi <= v@.len(),
            r@ == v@.subrange(lo as int, i as int),
        decreases hi - i,
    {
        r.push(v[i]);
        proof {
            assert(r@ =~= v@.subrange(lo as int, i + 1));
        }
        i = i + 1;
    }
    r
}

/// Index of the first non-whitespace character at or after `i`.
pub open spec fn skip_space(cs: Seq<char>, i: nat) -> nat
    decreases cs.len() - i,
{
    if i < cs.len() && is_white_space(cs[i as int]) {
        skip_space(cs, i + 1)
    } else {
        i
    }
}

/// One past the last non-whitespace character before index `i`.
pub open spec fn skip_space_back(cs: Seq<char>, i: nat) -> nat
    decreases i,
{
    if 0 < i <= cs.len() && is_white_space(cs[i - 1]) {
        skip_space_back(cs, (i - 1) as nat)
    } else {
        i
    }
}

/// `cs` without leading whitespace (`str::trim_start`).
pub open spec fn trim_start(cs: Seq<char>) -> Seq<char> {
    cs.skip(skip_space(cs, 0) as int)
}

/// `cs` without trailing whitespace (`str::trim_end`).
pub open spec fn trim_end(cs: Seq<char>) -> Seq<char> {
    cs.take(skip_space_back(cs, cs.len()) as int)
}

/// `cs` without surrounding whitespace (`str::trim`).
pub open spec fn trim(cs: Seq<char>) -> Seq<char> {
    trim_end(trim_start(cs))
}

/// Exec form of [`skip_space`].
pub fn skip_space_exec(cs: &Vec<char>, i: usize) -> (r: usize)
    requires
        i <= cs@.len(),
    ensures
        r == skip_space(cs@, i as nat),
        i <= r <= cs@.len(),
    decreases cs@.len() - i,
{
    if i < cs.len() && char_is_whitespace(cs[i]) {
        skip_space_exec(cs, i + 1)
    } else {
        i
    }
}

/// Exec form of [`skip_space_back`].
pub fn skip_space_back_exec(cs: &Vec<char>, i: usize) -> (r: usize)
    requires
        i <= cs@.len(),
    ensures
        r == skip_space_back(cs@, i as nat),
        r <= i,
    decreases i,
{
    if 0 < i && char_is_whitespace(cs[i - 1]) {
        skip_space_back_exec(cs, i - 1)
    } else {
        i
    }
}

/// The characters of `v` without surrounding whitespace (`str::trim`).
pub fn trim_chars(v: &Vec<char>) -> (r: Vec<char>)
    ensures
        r@ == trim(v@),
{
    let a = skip_space_exec(v, 0);
    let w = slice_chars(v, a, v.len());
    let b = skip_space_back_exec(&w, w.len());
    proof {
        assert(w@ =~= trim_start(v@));
    }
    slice_chars(&w, 0, b)
}

} // verus!
