//! Headless find and replace: literal or regex queries compiled with the
//! `regex` crate, match lists over a buffer, and replacement collection.
use vstd::prelude::*;
use std::ops::Range;
use crate::buffer::{
    EditorBuffer, batch_edits, batch_valid, batch_view, insert_at, lemma_batch_push, next_version, remove_range,
    replaced_all,
};
use crate::history::TransactionView;
use crate::rope_text::char_of_byte;
use crate::error::EditorError;
use crate::rope_text::{is_char_boundary, rope_text, rope_to_string};
use crate::text::{lemma_byte_at_mono, lemma_byte_at_len};
use crate::text::{byte_at, byte_len, char_offsets, chars_to_string, push_all, str_chars, str_eq};

verus! {

#[verifier::external_type_specification]
#[verifier::external_body]
pub struct ExRegex(regex::Regex);

/// A find query: literal substring or regex, with case and whole-word
/// toggles.
#[derive(Debug, Clone)]
pub struct SearchQuery {
    /// The raw pattern text (literal or regex source).
    pub pattern: String,
    /// Whether matching is case-sensitive.
    pub case_sensitive: bool,
    /// Whether matches must span whole words.
    pub whole_word: bool,
    /// Whether `pattern` is a regex (else a literal substring).
    pub is_regex: bool,
}

impl SearchQuery {
    /// Creates a case-sensitive literal substring query.
    pub fn literal(pattern: &str) -> (q: Self)
        ensures
            q.pattern@ == pattern@,
            q.case_sensitive,
            !q.whole_word,
            !q.is_regex,
    {
        SearchQuery {
            pattern: pattern.to_owned(),
            case_sensitive: true,
            whole_word: false,
            is_regex: false,
        }
    }

    /// Creates a query with explicit options.
    pub fn new(pattern: &str, case_sensitive: bool, whole_word: bool, is_regex: bool) -> (q: Self)
        ensures
            q.pattern@ == pattern@,
            q.case_sensitive == case_sensitive,
            q.whole_word == whole_word,
            q.is_regex == is_regex,
    {
        SearchQuery { pattern: pattern.to_owned(), case_sensitive, whole_word, is_regex }
    }
}

impl Default for SearchQuery {
    fn default() -> (q: Self)
        ensures
            q.pattern@.len() == 0,
            q.case_sensitive,
            !q.whole_word,
            !q.is_regex,
    {
        SearchQuery { pattern: String::new(), case_sensitive: true, whole_word: false, is_regex: false }
    }
}

/// Characters `regex` treats as meta characters.
pub open spec fn is_regex_meta(c: char) -> bool {
    c == '\\' || c == '.' || c == '+' || c == '*' || c == '?' || c == '(' || c == ')' || c == '|'
        || c == '[' || c == ']' || c == '{' || c == '}' || c == '^' || c == '$' || c == '#' || c
        == '&' || c == '-' || c == '~'
}

/// `s` with a backslash before every meta character.
pub open spec fn regex_escaped(s: Seq<char>) -> Seq<char>
    decreases s.len(),
{
    if s.len() == 0 {
        Seq::empty()
    } else {
        regex_escaped(s.drop_last()) + if is_regex_meta(s.last()) {
            seq!['\\', s.last()]
        } else {
            seq![s.last()]
        }
    }
}

/// Whether `c` is one of the meta characters of [`is_regex_meta`].
fn regex_meta(c: char) -> (b: bool)
    ensures
        b == is_regex_meta(c),
{
    c == '\\' || c == '.' || c == '+' || c == '*' || c == '?' || c == '(' || c == ')' || c == '|'
        || c == '[' || c == ']' || c == '{' || c == '}' || c == '^' || c == '$' || c == '#' || c
        == '&' || c == '-' || c == '~'
}

/// `s` as a regex that matches it literally: a backslash before every
/// meta character, the same text as `regex::escape` gives.
fn regex_escape(s: &str) -> (r: String)
    ensures
        r@ == regex_escaped(s@),
{
    let cs = str_chars(s);
    let mut out: Vec<char> = Vec::new();
    let mut i: usize = 0;
    while i < cs.len()
        invariant
            cs@ == s@,
            i <= cs@.len(),
            out@ == regex_escaped(cs@.subrange(0, i as int)),
        decreases cs@.len() - i,
    {
        let c = cs[i];
        proof {
            let pre = cs@.subrange(0, i as int + 1);
            assert(pre.drop_last() =~= cs@.subrange(0, i as int));
            assert(pre.last() == c);
        }
        if regex_meta(c) {
            out.push('\\');
        }
        out.push(c);
        i = i + 1;
    }
    proof {
        assert(cs@.subrange(0, cs@.len() as int) =~= cs@);
    }
    chars_to_string(&out)
}

/// Whether `Regex::new` accepts a source (`Ok(())`) or the text of the
/// error it reports.
pub uninterp spec fn regex_new_result(source: Seq<char>) -> Result<(), Seq<char>>;

/// The source a regex was built from (`Regex::as_str`).
pub uninterp spec fn regex_source(r: regex::Regex) -> Seq<char>;

/// `Regex::new`, with the error rendered as its message.
///
/// Trusted: success and the message depend on the source alone, and a
/// built regex reports its source back.
#[verifier::external_body]
fn regex_new(source: &str) -> (r: Result<regex::Regex, String>)
    ensures
        match r {
            Ok(re) => regex_new_result(source@) == Ok::<(), Seq<char>>(()) && regex_source(re)
                == source@,
            Err(m) => regex_new_result(source@) == Err::<(), Seq<char>>(m@),
        },
{
    match regex::Regex::new(source) {
        Ok(re) => Ok(re),
        Err(e) => Err(e.to_string()),
    }
}

/// Byte ranges `find_iter` reports for a regex source over a text.
pub uninterp spec fn regex_find_all(source: Seq<char>, text: Seq<char>) -> Seq<(nat, nat)>;

/// `Regex::find_iter`, each match as its byte range.
///
/// Trusted: the matches are those of the regex's source over the text;
/// the crate documents that each starts no later than it ends, that both
/// ends are character boundaries of the text, and that the matches are
/// successive and do not overlap.
#[verifier::external_body]
fn regex_find_iter(re: &regex::Regex, text: &str) -> (r: Vec<(usize, usize)>)
    ensures
        r@.map_values(|p: (usize, usize)| (p.0 as nat, p.1 as nat)) == regex_find_all(
            regex_source(*re),
            text@,
        ),
        forall|k: int|
            0 <= k < r@.len() ==> (#[trigger] r@[k]).0 <= r@[k].1 && is_char_boundary(
                text@,
                r@[k].0 as nat,
            ) && is_char_boundary(text@, r@[k].1 as nat),
        forall|i: int, j: int| 0 <= i < j < r@.len() ==> (#[trigger] r@[i]).1 <= (#[trigger] r@[j]).0,
{
    re.find_iter(text).map(|m| (m.start(), m.end())).collect()
}

/// Whole-match byte ranges and expanded replacement texts that
/// `captures_iter` with `Captures::expand` yields.
pub uninterp spec fn regex_expansions(source: Seq<char>, text: Seq<char>, replacement: Seq<char>) -> Seq<
    (nat, nat, Seq<char>),
>;

/// `Regex::captures_iter`, each match as its whole-match byte range and the
/// replacement expanded against its capture groups.
///
/// Trusted: the results are those of the regex's source over the text and
/// the replacement template; both ends of a match are ordered character
/// boundaries, and matches are successive and do not overlap, as the crate
/// documents.
#[verifier::external_body]
fn regex_capture_expansions(re: &regex::Regex, text: &str, replacement: &str) -> (r: Vec<
    (usize, usize, String),
>)
    ensures
        r@.map_values(|p: (usize, usize, String)| (p.0 as nat, p.1 as nat, p.2@))
            == regex_expansions(regex_source(*re), text@, replacement@),
        forall|k: int|
            0 <= k < r@.len() ==> (#[trigger] r@[k]).0 <= r@[k].1 && is_char_boundary(
                text@,
                r@[k].0 as nat,
            ) && is_char_boundary(text@, r@[k].1 as nat),
        forall|i: int, j: int| 0 <= i < j < r@.len() ==> (#[trigger] r@[i]).1 <= (#[trigger] r@[j]).0,
{
    let mut out = Vec::new();
    for caps in re.captures_iter(text) {
        let m = caps.get(0).unwrap();
        let mut expanded = String::new();
        caps.expand(replacement, &mut expanded);
        out.push((m.start(), m.end(), expanded));
    }
    out
}

/// The regex source a query compiles to: the pattern (escaped unless it is
/// a regex), wrapped in `\\b(?:...)\\b` for whole words, prefixed with `(?i)`
/// when case-insensitive.
pub open spec fn query_source(q: SearchQuery) -> Seq<char> {
    let core = if q.is_regex {
        q.pattern@
    } else {
        regex_escaped(q.pattern@)
    };
    let w = if q.whole_word {
        seq!['\\', 'b', '(', '?', ':'] + core + seq![')', '\\', 'b']
    } else {
        core
    };
    if !q.case_sensitive {
        seq!['(', '?', 'i', ')'] + w
    } else {
        w
    }
}

fn push_str_chars(out: &mut Vec<char>, s: &str)
    ensures
        final(out)@ == old(out)@ + s@,
{
    let v = str_chars(s);
    push_all(out, &v);
}

/// Compiles a query into a regex. An empty pattern is an error, as is a
/// regex pattern the engine rejects.
pub fn compile_query(query: &SearchQuery) -> (r: Result<regex::Regex, EditorError>)
    ensures
        query.pattern@.len() == 0 ==> r matches Err(EditorError::EmptySearchPattern),
        query.pattern@.len() > 0 ==> match regex_new_result(query_source(*query)) {
            Ok(_) => r matches Ok(re) && regex_source(re) == query_source(*query),
            Err(m) => r matches Err(EditorError::InvalidRegex { pattern, message }) && pattern@
                == query.pattern@ && message@ == m,
        },
{
    if query.pattern.as_str().is_empty() {
        return Err(EditorError::EmptySearchPattern);
    }
    let mut core: Vec<char> = Vec::new();
    if query.is_regex {
        push_str_chars(&mut core, query.pattern.as_str());
    } else {
        let e = regex_escape(query.pattern.as_str());
        push_str_chars(&mut core, e.as_str());
    }
    let mut w: Vec<char> = Vec::new();
    if query.whole_word {
        w.push('\\');
        w.push('b');
        w.push('(');
        w.push('?');
        w.push(':');
        push_all(&mut w, &core);
        w.push(')');
        w.push('\\');
        w.push('b');
    } else {
        push_all(&mut w, &core);
    }
    let mut src: Vec<char> = Vec::new();
    if !query.case_sensitive {
        src.push('(');
        src.push('?');
        src.push('i');
        src.push(')');
    }
    push_all(&mut src, &w);
    proof {
        assert(src@ =~= query_source(*query));
    }
    let source = chars_to_string(&src);
    match regex_new(source.as_str()) {
        Ok(re) => Ok(re),
        Err(message) => Err(EditorError::InvalidRegex { pattern: query.pattern.clone(), message }),
    }
}

/// Whether byte `b` is a character boundary, found by binary search over
/// the character offsets of the text.
fn offset_is_boundary(offs: &Vec<usize>, t: Ghost<Seq<char>>, b: usize) -> (r: bool)
    requires
        offs@.len() == t@.len() + 1,
        forall|m: int| 0 <= m <= t@.len() ==> offs@[m] == byte_at(t@, m),
    ensures
        r == is_char_boundary(t@, b as nat),
{
    let mut lo: usize = 0;
    let mut hi: usize = offs.len();
    while lo < hi
        invariant
            0 <= lo <= hi <= offs@.len() == t@.len() + 1,
            forall|m: int| 0 <= m <= t@.len() ==> offs@[m] == byte_at(t@, m),
            forall|m: int| 0 <= m < lo ==> offs@[m] < b,
            forall|m: int| hi <= m < offs@.len() ==> offs@[m] > b,
        decreases hi - lo,
    {
        let mid = lo + (hi - lo) / 2;
        if offs[mid] == b {
            proof {
                assert(byte_at(t@, mid as int) == b);
            }
            return true;
        } else if offs[mid] < b {
            proof {
                assert forall|m: int| 0 <= m <= mid implies offs@[m] < b by {
                    lemma_byte_at_mono(t@, m, mid as int);
                }
            }
            lo = mid + 1;
        } else {
            proof {
                assert forall|m: int| mid <= m < offs@.len() implies offs@[m] > b by {
                    lemma_byte_at_mono(t@, mid as int, m);
                }
            }
            hi = mid;
        }
    }
    proof {
        if is_char_boundary(t@, b as nat) {
            let c = choose|c: nat| c <= t@.len() && #[trigger] byte_at(t@, c as int) == b;
            assert(offs@[c as int] == b);
        }
    }
    false
}

/// Matches whose two ends are character boundaries of `t`, in order.
pub open spec fn boundary_filter(t: Seq<char>, ms: Seq<(nat, nat)>) -> Seq<(nat, nat)>
    decreases ms.len(),
{
    if ms.len() == 0 {
        Seq::empty()
    } else {
        let rest = boundary_filter(t, ms.drop_last());
        let m = ms.last();
        if is_char_boundary(t, m.0) && is_char_boundary(t, m.1) {
            rest.push(m)
        } else {
            rest
        }
    }
}

/// A list of byte ranges as pairs.
pub open spec fn range_pairs(v: Seq<Range<usize>>) -> Seq<(nat, nat)> {
    v.map_values(|r: Range<usize>| (r.start as nat, r.end as nat))
}

/// The matches kept of the byte ranges `find_iter` reports over `text`:
/// those whose two ends are character boundaries, in order.
pub fn matches_of(text: &str, ms: &Vec<(usize, usize)>) -> (out: Vec<Range<usize>>)
    ensures
        range_pairs(out@) == boundary_filter(
            text@,
            ms@.map_values(|p: (usize, usize)| (p.0 as nat, p.1 as nat)),
        ),
{
    let ghost t = text@;
    let chars = str_chars(text);
    let offs = char_offsets(&chars);
    let ghost all = ms@.map_values(|p: (usize, usize)| (p.0 as nat, p.1 as nat));
    let mut out: Vec<Range<usize>> = Vec::new();
    let mut i: usize = 0;
    proof {
        assert(all.take(0) =~= Seq::<(nat, nat)>::empty());
    }
    while i < ms.len()
        invariant
            i <= ms@.len(),
            chars@ == t,
            offs@.len() == t.len() + 1,
            forall|m: int| 0 <= m <= t.len() ==> offs@[m] == byte_at(t, m),
            all == ms@.map_values(|p: (usize, usize)| (p.0 as nat, p.1 as nat)),
            range_pairs(out@) == boundary_filter(t, all.take(i as int)),
        decreases ms@.len() - i,
    {
        let (a, b) = ms[i];
        proof {
            assert(all.take(i + 1).drop_last() =~= all.take(i as int));
            assert(all.take(i + 1).last() == (a as nat, b as nat));
        }
        if offset_is_boundary(&offs, Ghost(t), a) && offset_is_boundary(&offs, Ghost(t), b) {
            let ghost before = out@;
            out.push(a..b);
            proof {
                assert(range_pairs(out@) =~= range_pairs(before).push((a as nat, b as nat)));
            }
        }
        i = i + 1;
    }
    proof {
        assert(all.take(i as int) =~= all);
    }
    out
}

/// Returns all match byte ranges of `query` in the buffer, in the order
/// the regex engine reports them.
pub fn find_matches(buffer: &EditorBuffer, query: &SearchQuery) -> (r: Result<Vec<Range<usize>>, EditorError>)
    ensures
        query.pattern@.len() == 0 ==> r matches Err(EditorError::EmptySearchPattern),
        query.pattern@.len() > 0 ==> match regex_new_result(query_source(*query)) {
            Ok(_) => r matches Ok(v) && range_pairs(v@) == boundary_filter(
                buffer.text_view(),
                regex_find_all(query_source(*query), buffer.text_view()),
            ),
            Err(m) => r matches Err(EditorError::InvalidRegex { pattern, message }) && pattern@
                == query.pattern@ && message@ == m,
        },
{
    let re = match compile_query(query) {
        Ok(re) => re,
        Err(e) => {
            return Err(e);
        },
    };
    let text = rope_to_string(buffer.text());
    let ms = regex_find_iter(&re, text.as_str());
    Ok(matches_of(text.as_str(), &ms))
}

/// Index of the first pair from `i` on whose start is at least `from`.
pub open spec fn first_at_or_after(ms: Seq<(nat, nat)>, from: nat, i: nat) -> Option<nat>
    decreases ms.len() - i,
{
    if i >= ms.len() {
        None
    } else if ms[i as int].0 >= from {
        Some(i)
    } else {
        first_at_or_after(ms, from, i + 1)
    }
}

/// Index of the last pair before `i` whose start is below `from`.
pub open spec fn last_before(ms: Seq<(nat, nat)>, from: nat, i: nat) -> Option<nat>
    decreases i,
{
    if i == 0 || i > ms.len() {
        None
    } else if ms[i - 1].0 < from {
        Some((i - 1) as nat)
    } else {
        last_before(ms, from, (i - 1) as nat)
    }
}

/// The match `find_next` picks: the first starting at or after `from`,
/// else (when wrapping) the first of all.
pub open spec fn next_match_index(ms: Seq<(nat, nat)>, from: nat, wrap: bool) -> Option<nat> {
    if ms.len() == 0 {
        None
    } else {
        match first_at_or_after(ms, from, 0) {
            Some(k) => Some(k),
            None => if wrap {
                Some(0)
            } else {
                None
            },
        }
    }
}

/// The match `find_prev` picks: the last starting strictly before `from`,
/// else (when wrapping) the last of all.
pub open spec fn prev_match_index(ms: Seq<(nat, nat)>, from: nat, wrap: bool) -> Option<nat> {
    if ms.len() == 0 {
        None
    } else {
        match last_before(ms, from, ms.len()) {
            Some(k) => Some(k),
            None => if wrap {
                Some((ms.len() - 1) as nat)
            } else {
                None
            },
        }
    }
}

proof fn lemma_first_at_or_after(ms: Seq<(nat, nat)>, from: nat, i: nat)
    ensures
        first_at_or_after(ms, from, i) matches Some(k) ==> i <= k < ms.len(),
    decreases ms.len() - i,
{
    if i < ms.len() {
        lemma_first_at_or_after(ms, from, i + 1);
    }
}

proof fn lemma_last_before(ms: Seq<(nat, nat)>, from: nat, i: nat)
    ensures
        last_before(ms, from, i) matches Some(k) ==> k < i && k < ms.len(),
    decreases i,
{
    if i > 0 && i <= ms.len() {
        lemma_last_before(ms, from, (i - 1) as nat);
    }
}

fn index_result(v: &Vec<Range<usize>>, k: Option<usize>) -> (r: Option<Range<usize>>)
    requires
        k matches Some(i) ==> i < v@.len(),
    ensures
        match k {
            Some(i) => r matches Some(m) && m == v@[i as int],
            None => r.is_none(),
        },
{
    match k {
        Some(i) => Some(v[i].start..v[i].end),
        None => None,
    }
}

/// Returns the first match at or after `from_offset` (clamped to the
/// document), wrapping to the first match when `wrap` is set.
#[verifier::loop_isolation(false)]
pub fn find_next(buffer: &EditorBuffer, query: &SearchQuery, from_offset: usize, wrap: bool) -> (r:
    Result<Option<Range<usize>>, EditorError>)
    ensures
        query.pattern@.len() == 0 ==> r matches Err(EditorError::EmptySearchPattern),
        query.pattern@.len() > 0 ==> match regex_new_result(query_source(*query)) {
            Ok(_) => {
                let ms = boundary_filter(
                    buffer.text_view(),
                    regex_find_all(query_source(*query), buffer.text_view()),
                );
                let from = if (from_offset as nat) <= byte_len(buffer.text_view()) {
                    from_offset as nat
                } else {
                    byte_len(buffer.text_view())
                };
                r matches Ok(o) && match next_match_index(ms, from, wrap) {
                    Some(k) => o matches Some(m) && (m.start as nat, m.end as nat) == ms[k as int],
                    None => o.is_none(),
                }
            },
            Err(m) => r matches Err(EditorError::InvalidRegex { pattern, message }) && pattern@
                == query.pattern@ && message@ == m,
        },
{
    let matches = match find_matches(buffer, query) {
        Ok(v) => v,
        Err(e) => {
            return Err(e);
        },
    };
    let ghost ms = range_pairs(matches@);
    if matches.len() == 0 {
        return Ok(None);
    }
    let len = buffer.len_bytes();
    let from = if from_offset < len {
        from_offset
    } else {
        len
    };
    let mut i: usize = 0;
    while i < matches.len()
        invariant
            i <= matches@.len(),
            ms == range_pairs(matches@),
            first_at_or_after(ms, from as nat, i as nat) == first_at_or_after(ms, from as nat, 0),
        decreases matches@.len() - i,
    {
        if matches[i].start >= from {
            return Ok(index_result(&matches, Some(i)));
        }
        i = i + 1;
    }
    if wrap {
        Ok(index_result(&matches, Some(0)))
    } else {
        Ok(None)
    }
}

/// Returns the last match starting strictly before `from_offset` (clamped
/// to the document), wrapping to the last match when `wrap` is set.
#[verifier::loop_isolation(false)]
pub fn find_prev(buffer: &EditorBuffer, query: &SearchQuery, from_offset: usize, wrap: bool) -> (r:
    Result<Option<Range<usize>>, EditorError>)
    ensures
        query.pattern@.len() == 0 ==> r matches Err(EditorError::EmptySearchPattern),
        query.pattern@.len() > 0 ==> match regex_new_result(query_source(*query)) {
            Ok(_) => {
                let ms = boundary_filter(
                    buffer.text_view(),
                    regex_find_all(query_source(*query), buffer.text_view()),
                );
                let from = if (from_offset as nat) <= byte_len(buffer.text_view()) {
                    from_offset as nat
                } else {
                    byte_len(buffer.text_view())
                };
                r matches Ok(o) && match prev_match_index(ms, from, wrap) {
                    Some(k) => o matches Some(m) && (m.start as nat, m.end as nat) == ms[k as int],
                    None => o.is_none(),
                }
            },
            Err(m) => r matches Err(EditorError::InvalidRegex { pattern, message }) && pattern@
                == query.pattern@ && message@ == m,
        },
{
    let matches = match find_matches(buffer, query) {
        Ok(v) => v,
        Err(e) => {
            return Err(e);
        },
    };
    let ghost ms = range_pairs(matches@);
    if matches.len() == 0 {
        return Ok(None);
    }
    let len = buffer.len_bytes();
    let from = if from_offset < len {
        from_offset
    } else {
        len
    };
    let mut i: usize = matches.len();
    while i > 0
        invariant
            i <= matches@.len(),
            ms == range_pairs(matches@),
            last_before(ms, from as nat, i as nat) == last_before(ms, from as nat, ms.len()),
        decreases i,
    {
        if matches[i - 1].start < from {
            return Ok(index_result(&matches, Some(i - 1)));
        }
        i = i - 1;
    }
    if wrap {
        Ok(index_result(&matches, Some(matches.len() - 1)))
    } else {
        Ok(None)
    }
}

/// Two queries with the same pattern and flags.
pub open spec fn same_query(a: SearchQuery, b: SearchQuery) -> bool {
    a.pattern@ == b.pattern@ && a.case_sensitive == b.case_sensitive && a.whole_word
        == b.whole_word && a.is_regex == b.is_regex
}

fn same_query_exec(a: &SearchQuery, b: &SearchQuery) -> (r: bool)
    ensures
        r == same_query(*a, *b),
{
    str_eq(a.pattern.as_str(), b.pattern.as_str()) && a.case_sensitive == b.case_sensitive
        && a.whole_word == b.whole_word && a.is_regex == b.is_regex
}

/// Cached search state for interactive find: the active query, its match
/// list and the current match.
#[derive(Debug)]
pub struct SearchState {
    query: Option<SearchQuery>,
    matches: Vec<Range<usize>>,
    current: Option<usize>,
    version: usize,
}

impl Clone for SearchState {
    fn clone(&self) -> (c: Self)
        ensures
            match (c.query_view(), self.query_view()) {
                (Some(a), Some(b)) => same_query(a, b),
                (None, None) => true,
                _ => false,
            },
            c.matches_view() == self.matches_view(),
            c.current_view() == self.current_view(),
            c.version_view() == self.version_view(),
    {
        proof {
            use_type_invariant(self);
        }
        let query = match &self.query {
            Some(q) => Some(SearchQuery::new(q.pattern.as_str(), q.case_sensitive, q.whole_word, q.is_regex)),
            None => None,
        };
        let mut matches: Vec<Range<usize>> = Vec::new();
        let mut k: usize = 0;
        while k < self.matches.len()
            invariant
                k <= self.matches@.len(),
                matches@ == self.matches@.take(k as int),
            decreases self.matches@.len() - k,
        {
            let r = self.matches[k].start..self.matches[k].end;
            proof {
                assert(self.matches@.take(k + 1) =~= self.matches@.take(k as int).push(self.matches@[k as int]));
            }
            matches.push(r);
            k = k + 1;
        }
        proof {
            assert(self.matches@.take(k as int) =~= self.matches@);
        }
        SearchState { query, matches, current: self.current, version: self.version }
    }
}

impl SearchState {
    /// The active query.
    pub closed spec fn query_view(&self) -> Option<SearchQuery> {
        self.query
    }

    /// The cached matches.
    pub closed spec fn matches_view(&self) -> Seq<Range<usize>> {
        self.matches@
    }

    /// The current match index.
    pub closed spec fn current_view(&self) -> Option<usize> {
        self.current
    }

    /// The buffer version the cached matches were scanned at.
    pub closed spec fn version_view(&self) -> nat {
        self.version as nat
    }

    /// The current match, when set, is one of the cached matches.
    pub open spec fn wf(&self) -> bool {
        self.current_view() matches Some(i) ==> i < self.matches_view().len()
    }

    /// Every state keeps its current match among the cached matches.
    #[verifier::type_invariant]
    pub open spec fn inv(&self) -> bool {
        self.wf()
    }

    /// Creates an empty state with no query.
    pub fn new() -> (s: Self)
        ensures
            s.query_view().is_none(),
            s.matches_view().len() == 0,
            s.current_view().is_none(),
            s.version_view() == 0,
    {
        SearchState { query: None, matches: Vec::new(), current: None, version: 0 }
    }

    /// Sets the active query and clears the matches and the current match
    /// until the next scan.
    pub fn set_query(&mut self, query: SearchQuery)
        ensures
            final(self).query_view() == Some(query),
            final(self).matches_view().len() == 0,
            final(self).current_view().is_none(),
            final(self).version_view() == usize::MAX,
    {
        self.current = None;
        self.query = Some(query);
        self.matches = Vec::new();
        self.version = usize::MAX;
    }

    /// Returns the active query, if any.
    pub fn query(&self) -> (q: Option<&SearchQuery>)
        ensures
            match q {
                Some(x) => self.query_view() == Some(*x),
                None => self.query_view().is_none(),
            },
    {
        match &self.query {
            Some(q) => Some(q),
            None => None,
        }
    }

    /// All cached match ranges.
    pub fn matches(&self) -> (m: &[Range<usize>])
        ensures
            m@ == self.matches_view(),
    {
        self.matches.as_slice()
    }

    /// Number of cached matches.
    pub fn match_count(&self) -> (n: usize)
        ensures
            n == self.matches_view().len(),
    {
        self.matches.len()
    }

    /// Index of the current match, if navigation has occurred.
    pub fn current_index(&self) -> (i: Option<usize>)
        ensures
            i == self.current_view(),
    {
        self.current
    }

    /// The current match range, if navigation has occurred and it is still
    /// cached.
    pub fn current_match(&self) -> (m: Option<Range<usize>>)
        ensures
            match self.current_view() {
                Some(i) => if i < self.matches_view().len() {
                    m matches Some(r) && r == self.matches_view()[i as int]
                } else {
                    m.is_none()
                },
                None => m.is_none(),
            },
    {
        match self.current {
            Some(i) => if i < self.matches.len() {
                Some(self.matches[i].start..self.matches[i].end)
            } else {
                None
            },
            None => None,
        }
    }
}

/// A query compiles: its pattern is non-empty and its regex source is
/// accepted.
pub open spec fn query_compiles(q: SearchQuery) -> bool {
    q.pattern@.len() > 0 && regex_new_result(query_source(q)) is Ok
}

/// The matches of a compiling query over a text.
pub open spec fn scan_of(q: SearchQuery, t: Seq<char>) -> Seq<(nat, nat)> {
    boundary_filter(t, regex_find_all(query_source(q), t))
}

/// The error a query that does not compile is reported with.
pub open spec fn query_error(q: SearchQuery, e: EditorError) -> bool {
    if q.pattern@.len() == 0 {
        e matches EditorError::EmptySearchPattern
    } else {
        match regex_new_result(query_source(q)) {
            Err(m) => (e matches EditorError::InvalidRegex { pattern, message } && pattern@
                == q.pattern@ && message@ == m),
            Ok(_) => false,
        }
    }
}

/// Whether the cache must be rescanned for a buffer at version `v`.
pub open spec fn is_stale(s: SearchState, v: nat) -> bool {
    s.version_view() != v
}

/// The match pairs after a refresh against text `t` at version `v`;
/// `None` when the rescan fails.
pub open spec fn refreshed_pairs(s: SearchState, t: Seq<char>, v: nat) -> Option<Seq<(nat, nat)>> {
    if !is_stale(s, v) {
        Some(range_pairs(s.matches_view()))
    } else {
        match s.query_view() {
            None => Some(Seq::empty()),
            Some(q) => if query_compiles(q) {
                Some(scan_of(q, t))
            } else {
                None
            },
        }
    }
}

/// The current match index after a successful refresh: kept unless it
/// no longer names a match.
pub open spec fn refreshed_current(s: SearchState, t: Seq<char>, v: nat) -> Option<usize> {
    if !is_stale(s, v) {
        s.current_view()
    } else {
        match s.query_view() {
            None => None,
            Some(q) => if s.current_view() matches Some(i) && i >= scan_of(q, t).len() {
                None
            } else {
                s.current_view()
            },
        }
    }
}

/// The cached version after a successful refresh.
pub open spec fn refreshed_version(s: SearchState, v: nat) -> nat {
    if is_stale(s, v) && s.query_view() is Some {
        v
    } else {
        s.version_view()
    }
}

/// Two states hold the same query, matches, current match and version.
pub open spec fn same_state(a: SearchState, b: SearchState) -> bool {
    a.query_view() == b.query_view() && a.matches_view() == b.matches_view() && a.current_view()
        == b.current_view() && a.version_view() == b.version_view()
}

impl SearchState {
    /// Rescans the buffer when its version differs from the cached one (or
    /// the query changed). Without a query the cache empties. A failing
    /// rescan reports the query's error and leaves the state as it was.
    pub fn refresh(&mut self, buffer: &EditorBuffer) -> (r: Result<(), EditorError>)
        ensures
            final(self).wf(),
            match refreshed_pairs(*old(self), buffer.text_view(), buffer.version_view()) {
                Some(ms) => r is Ok && range_pairs(final(self).matches_view()) == ms
                    && final(self).current_view() == refreshed_current(
                    *old(self),
                    buffer.text_view(),
                    buffer.version_view(),
                ) && final(self).version_view() == refreshed_version(
                    *old(self),
                    buffer.version_view(),
                ) && final(self).query_view() == old(self).query_view(),
                None => same_state(*final(self), *old(self)) && (r matches Err(e) && (
                old(self).query_view() matches Some(q) && query_error(q, e))),
            },
    {
        proof {
            use_type_invariant(&*self);
        }
        if self.version == buffer.version() {
            return Ok(());
        }
        let found = match &self.query {
            None => None,
            Some(q) => Some(find_matches(buffer, q)),
        };
        let matches = match found {
            None => {
                self.current = None;
                self.matches = Vec::new();
                proof {
                    assert(range_pairs(self.matches@) =~= Seq::<(nat, nat)>::empty());
                }
                return Ok(());
            },
            Some(Err(e)) => {
                return Err(e);
            },
            Some(Ok(m)) => m,
        };
        self.version = buffer.version();
        match self.current {
            Some(i) => {
                if i >= matches.len() {
                    self.current = None;
                }
            },
            None => {},
        }
        self.matches = matches;
        Ok(())
    }

    /// Selects the first match starting at or after `from_offset` (clamped
    /// to the document), wrapping to the first match when `wrap` is set,
    /// after a refresh.
    #[verifier::loop_isolation(false)]
    pub fn next(&mut self, buffer: &EditorBuffer, from_offset: usize, wrap: bool) -> (r: Result<
        Option<Range<usize>>,
        EditorError,
    >)
        ensures
            final(self).wf(),
            match refreshed_pairs(*old(self), buffer.text_view(), buffer.version_view()) {
                Some(ms) => {
                    let from = if (from_offset as nat) <= byte_len(buffer.text_view()) {
                        from_offset as nat
                    } else {
                        byte_len(buffer.text_view())
                    };
                    &&& range_pairs(final(self).matches_view()) == ms
                    &&& final(self).version_view() == refreshed_version(
                        *old(self),
                        buffer.version_view(),
                    )
                    &&& final(self).query_view() == old(self).query_view()
                    &&& match next_match_index(ms, from, wrap) {
                        Some(k) => r matches Ok(Some(m)) && (m.start as nat, m.end as nat)
                            == ms[k as int] && final(self).current_view() == Some(k as usize),
                        None => r matches Ok(None) && final(self).current_view() == if ms.len()
                            == 0 {
                            None
                        } else {
                            refreshed_current(*old(self), buffer.text_view(), buffer.version_view())
                        },
                    }
                },
                None => same_state(*final(self), *old(self)) && (r matches Err(e) && (
                old(self).query_view() matches Some(q) && query_error(q, e))),
            },
    {
        proof {
            use_type_invariant(&*self);
        }
        match self.refresh(buffer) {
            Err(e) => {
                return Err(e);
            },
            Ok(()) => {},
        }
        let ghost ms = range_pairs(self.matches@);
        if self.matches.len() == 0 {
            self.current = None;
            return Ok(None);
        }
        let len = buffer.len_bytes();
        let from = if from_offset < len {
            from_offset
        } else {
            len
        };
        let ghost pre = *self;
        let mut i: usize = 0;
        while i < self.matches.len()
            invariant
                *self == pre,
                i <= self.matches@.len(),
                ms == range_pairs(self.matches@),
                first_at_or_after(ms, from as nat, i as nat) == first_at_or_after(ms, from as nat, 0),
            decreases self.matches@.len() - i,
        {
            if self.matches[i].start >= from {
                self.current = Some(i);
                return Ok(index_result(&self.matches, Some(i)));
            }
            i = i + 1;
        }
        if wrap {
            self.current = Some(0);
            Ok(index_result(&self.matches, Some(0)))
        } else {
            Ok(None)
        }
    }

    /// Selects the last match starting strictly before `from_offset`
    /// (clamped to the document), wrapping to the last match when `wrap`
    /// is set, after a refresh.
    #[verifier::loop_isolation(false)]
    pub fn prev(&mut self, buffer: &EditorBuffer, from_offset: usize, wrap: bool) -> (r: Result<
        Option<Range<usize>>,
        EditorError,
    >)
        ensures
            final(self).wf(),
            match refreshed_pairs(*old(self), buffer.text_view(), buffer.version_view()) {
                Some(ms) => {
                    let from = if (from_offset as nat) <= byte_len(buffer.text_view()) {
                        from_offset as nat
                    } else {
                        byte_len(buffer.text_view())
                    };
                    &&& range_pairs(final(self).matches_view()) == ms
                    &&& final(self).version_view() == refreshed_version(
                        *old(self),
                        buffer.version_view(),
                    )
                    &&& final(self).query_view() == old(self).query_view()
                    &&& match prev_match_index(ms, from, wrap) {
                        Some(k) => r matches Ok(Some(m)) && (m.start as nat, m.end as nat)
                            == ms[k as int] && final(self).current_view() == Some(k as usize),
                        None => r matches Ok(None) && final(self).current_view() == if ms.len()
                            == 0 {
                            None
                        } else {
                            refreshed_current(*old(self), buffer.text_view(), buffer.version_view())
                        },
                    }
                },
                None => same_state(*final(self), *old(self)) && (r matches Err(e) && (
                old(self).query_view() matches Some(q) && query_error(q, e))),
            },
    {
        proof {
            use_type_invariant(&*self);
        }
        match self.refresh(buffer) {
            Err(e) => {
                return Err(e);
            },
            Ok(()) => {},
        }
        let ghost ms = range_pairs(self.matches@);
        if self.matches.len() == 0 {
            self.current = None;
            return Ok(None);
        }
        let len = buffer.len_bytes();
        let from = if from_offset < len {
            from_offset
        } else {
            len
        };
        let ghost pre = *self;
        let mut i: usize = self.matches.len();
        while i > 0
            invariant
                *self == pre,
                i <= self.matches@.len(),
                ms == range_pairs(self.matches@),
                last_before(ms, from as nat, i as nat) == last_before(ms, from as nat, ms.len()),
            decreases i,
        {
            if self.matches[i - 1].start < from {
                self.current = Some(i - 1);
                return Ok(index_result(&self.matches, Some(i - 1)));
            }
            i = i - 1;
        }
        if wrap {
            let last = self.matches.len() - 1;
            self.current = Some(last);
            Ok(index_result(&self.matches, Some(last)))
        } else {
            Ok(None)
        }
    }
}

/// Replacements from literal matches: non-empty, boundary-aligned
/// matches, each replaced by the replacement verbatim.
pub open spec fn literal_replacements(t: Seq<char>, ms: Seq<(nat, nat)>, repl: Seq<char>) -> Seq<
    (nat, nat, Seq<char>),
>
    decreases ms.len(),
{
    if ms.len() == 0 {
        Seq::empty()
    } else {
        let rest = literal_replacements(t, ms.drop_last(), repl);
        let m = ms.last();
        if m.0 < m.1 && is_char_boundary(t, m.0) && is_char_boundary(t, m.1) {
            rest.push((m.0, m.1, repl))
        } else {
            rest
        }
    }
}

/// Replacements from regex expansions: non-empty, boundary-aligned matches
/// with their expanded texts.
pub open spec fn expanded_replacements(t: Seq<char>, xs: Seq<(nat, nat, Seq<char>)>) -> Seq<
    (nat, nat, Seq<char>),
>
    decreases xs.len(),
{
    if xs.len() == 0 {
        Seq::empty()
    } else {
        let rest = expanded_replacements(t, xs.drop_last());
        let x = xs.last();
        if x.0 < x.1 && is_char_boundary(t, x.0) && is_char_boundary(t, x.1) {
            rest.push(x)
        } else {
            rest
        }
    }
}

/// The replacements a query yields over a text.
pub open spec fn replacements_for(q: SearchQuery, t: Seq<char>, repl: Seq<char>) -> Seq<
    (nat, nat, Seq<char>),
> {
    if q.is_regex {
        expanded_replacements(t, regex_expansions(query_source(q), t, repl))
    } else {
        literal_replacements(t, regex_find_all(query_source(q), t), repl)
    }
}

/// The replacements kept of the expansions `captures_iter` reports over
/// `text`: those over a non-empty range whose ends are character
/// boundaries, in order.
pub fn expanded_replacements_of(text: &str, xs: &Vec<(usize, usize, String)>) -> (out: Vec<
    (Range<usize>, String),
>)
    requires
        forall|i: int, j: int| 0 <= i < j < xs@.len() ==> (#[trigger] xs@[i]).1 <= (#[trigger] xs@[j]).0,
    ensures
        batch_view(out@) == expanded_replacements(
            text@,
            xs@.map_values(|p: (usize, usize, String)| (p.0 as nat, p.1 as nat, p.2@)),
        ),
        batch_valid(text@, batch_view(out@)),
{
    let ghost t = text@;
    let chars = str_chars(text);
    let offs = char_offsets(&chars);
    let mut out: Vec<(Range<usize>, String)> = Vec::new();
    let ghost all = xs@.map_values(|p: (usize, usize, String)| (p.0 as nat, p.1 as nat, p.2@));
    let mut i: usize = 0;
    proof {
        assert(all.take(0) =~= Seq::<(nat, nat, Seq<char>)>::empty());
    }
    while i < xs.len()
        invariant
            i <= xs@.len(),
            chars@ == t,
            offs@.len() == t.len() + 1,
            forall|m: int| 0 <= m <= t.len() ==> offs@[m] == byte_at(t, m),
            all == xs@.map_values(|p: (usize, usize, String)| (p.0 as nat, p.1 as nat, p.2@)),
            batch_view(out@) == expanded_replacements(t, all.take(i as int)),
            batch_valid(t, batch_view(out@)),
            forall|p: int, q: int| 0 <= p < q < xs@.len() ==> (#[trigger] xs@[p]).1 <= (#[trigger] xs@[q]).0,
            batch_view(out@).len() > 0 ==> forall|j: int| i <= j < xs@.len() ==> batch_view(out@).last().1 <= (#[trigger] xs@[j]).0,
        decreases xs@.len() - i,
    {
        let a = xs[i].0;
        let b = xs[i].1;
        proof {
            assert(all.take(i + 1).drop_last() =~= all.take(i as int));
            assert(all.take(i + 1).last() == all[i as int]);
        }
        if a < b && offset_is_boundary(&offs, Ghost(t), a) && offset_is_boundary(&offs, Ghost(t), b) {
            let e = xs[i].2.clone();
            let ghost before = out@;
            proof {
                lemma_batch_push(t, batch_view(before), all[i as int]);
            }
            out.push((a..b, e));
            proof {
                assert(batch_view(out@) =~= batch_view(before).push(all[i as int]));
                assert forall|j: int| i + 1 <= j < xs@.len() implies batch_view(out@).last().1 <= (#[trigger] xs@[j]).0 by {
                    assert(xs@[i as int].1 <= xs@[j].0);
                }
            }
        }
        i = i + 1;
    }
    proof {
        assert(all.take(i as int) =~= all);
    }
    out
}

/// The replacements kept of the byte ranges `find_iter` reports over
/// `text`, each by `replacement` as it stands: those over a non-empty range
/// whose ends are character boundaries, in order.
pub fn literal_replacements_of(text: &str, ms: &Vec<(usize, usize)>, replacement: &str) -> (out: Vec<
    (Range<usize>, String),
>)
    requires
        forall|i: int, j: int| 0 <= i < j < ms@.len() ==> (#[trigger] ms@[i]).1 <= (#[trigger] ms@[j]).0,
    ensures
        batch_view(out@) == literal_replacements(
            text@,
            ms@.map_values(|p: (usize, usize)| (p.0 as nat, p.1 as nat)),
            replacement@,
        ),
        batch_valid(text@, batch_view(out@)),
{
    let ghost t = text@;
    let chars = str_chars(text);
    let offs = char_offsets(&chars);
    let mut out: Vec<(Range<usize>, String)> = Vec::new();
    let ghost all = ms@.map_values(|p: (usize, usize)| (p.0 as nat, p.1 as nat));
    let mut i: usize = 0;
    proof {
        assert(all.take(0) =~= Seq::<(nat, nat)>::empty());
    }
    while i < ms.len()
        invariant
            i <= ms@.len(),
            chars@ == t,
            offs@.len() == t.len() + 1,
            forall|m: int| 0 <= m <= t.len() ==> offs@[m] == byte_at(t, m),
            all == ms@.map_values(|p: (usize, usize)| (p.0 as nat, p.1 as nat)),
            batch_view(out@) == literal_replacements(t, all.take(i as int), replacement@),
            batch_valid(t, batch_view(out@)),
            forall|p: int, q: int| 0 <= p < q < ms@.len() ==> (#[trigger] ms@[p]).1 <= (#[trigger] ms@[q]).0,
            batch_view(out@).len() > 0 ==> forall|j: int| i <= j < ms@.len() ==> batch_view(out@).last().1 <= (#[trigger] ms@[j]).0,
        decreases ms@.len() - i,
    {
        let (a, b) = ms[i];
        proof {
            assert(all.take(i + 1).drop_last() =~= all.take(i as int));
            assert(all.take(i + 1).last() == (a as nat, b as nat));
        }
        if a < b && offset_is_boundary(&offs, Ghost(t), a) && offset_is_boundary(&offs, Ghost(t), b) {
            let ghost before = out@;
            proof {
                lemma_batch_push(t, batch_view(before), (a as nat, b as nat, replacement@));
            }
            out.push((a..b, replacement.to_owned()));
            proof {
                assert forall|j: int| i + 1 <= j < ms@.len() implies batch_view(out@).last().1 <= (#[trigger] ms@[j]).0 by {
                    assert(ms@[i as int].1 <= ms@[j].0);
                }
                assert(batch_view(out@) =~= batch_view(before).push(
                    (a as nat, b as nat, replacement@),
                ));
            }
        }
        i = i + 1;
    }
    proof {
        assert(all.take(i as int) =~= all);
    }
    out
}

/// Collects `(range, expanded_text)` pairs for `query` in `text`: non-empty
/// matches on character boundaries, with `$1` / `$name` capture expansion
/// in regex mode and the replacement verbatim in literal mode.
pub fn collect_replacements(text: &str, query: &SearchQuery, replacement: &str) -> (r: Result<
    Vec<(Range<usize>, String)>,
    EditorError,
>)
    ensures
        query.pattern@.len() == 0 ==> r matches Err(EditorError::EmptySearchPattern),
        query.pattern@.len() > 0 ==> match regex_new_result(query_source(*query)) {
            Ok(_) => r matches Ok(v) && batch_view(v@) == replacements_for(
                *query,
                text@,
                replacement@,
            ) && batch_valid(text@, batch_view(v@)),
            Err(m) => r matches Err(EditorError::InvalidRegex { pattern, message }) && pattern@
                == query.pattern@ && message@ == m,
        },
{
    let re = match compile_query(query) {
        Ok(re) => re,
        Err(e) => {
            return Err(e);
        },
    };
    if query.is_regex {
        let xs = regex_capture_expansions(&re, text, replacement);
        Ok(expanded_replacements_of(text, &xs))
    } else {
        let ms = regex_find_iter(&re, text);
        Ok(literal_replacements_of(text, &ms, replacement))
    }
}

/// Replaces every match of `query` with `replacement` as one undoable
/// transaction (capture references expand in regex mode) and returns how
/// many replacements were made. A query that does not compile is an error
/// and changes nothing.
pub fn replace_all_query(buffer: &mut EditorBuffer, query: &SearchQuery, replacement: &str) -> (r:
    Result<usize, EditorError>)
    ensures
        !query_compiles(*query) ==> (r matches Err(e) && query_error(*query, e))
            && final(buffer).text_view() == old(buffer).text_view() && final(buffer).cursor_view()
            == old(buffer).cursor_view() && final(buffer).undo_view() == old(buffer).undo_view()
            && final(buffer).redo_view() == old(buffer).redo_view() && final(buffer).version_view()
            == old(buffer).version_view(),
        query_compiles(*query) ==> ({
            let t = old(buffer).text_view();
            let reps = replacements_for(*query, t, replacement@);
            &&& r matches Ok(n) && n == reps.len()
            &&& reps.len() == 0 ==> final(buffer).text_view() == t && final(buffer).cursor_view()
                == old(buffer).cursor_view() && final(buffer).undo_view() == old(buffer).undo_view()
                && final(buffer).redo_view() == old(buffer).redo_view()
                && final(buffer).version_view() == old(buffer).version_view()
            &&& reps.len() > 0 ==> final(buffer).text_view() == replaced_all(t, reps)
                && final(buffer).undo_view() == old(buffer).undo_view().push(
                TransactionView {
                    edits: batch_edits(t, reps),
                    previous_cursor: old(buffer).cursor_view(),
                    resulting_cursor: final(buffer).cursor_view(),
                },
            ) && final(buffer).redo_view().len() == 0 && final(buffer).version_view()
                == next_version(old(buffer).version_view())
        }),
{
    let text = rope_to_string(buffer.text());
    let reps = match collect_replacements(text.as_str(), query, replacement) {
        Ok(v) => v,
        Err(e) => {
            return Err(e);
        },
    };
    Ok(buffer.replace_many(reps))
}

/// The text replacing the match at exactly bytes `s..e`, searching the
/// replacements from index `i` on.
pub open spec fn replacement_at(reps: Seq<(nat, nat, Seq<char>)>, s: nat, e: nat, i: nat) -> Option<
    Seq<char>,
>
    decreases reps.len() - i,
{
    if i >= reps.len() {
        None
    } else if reps[i as int].0 == s && reps[i as int].1 == e {
        Some(reps[i as int].2)
    } else {
        replacement_at(reps, s, e, i + 1)
    }
}

/// Replaces the single match `range` of `query` with `replacement`
/// (capture references expand in regex mode) as one undoable transaction.
///
/// `Ok(false)`, with nothing changed, when `range` is empty, reaches past
/// the document, splits a character or is not a match of `query`; a query
/// that does not compile is an error. An edit whose result would not fit
/// in the address space is refused the same way.
#[verifier::loop_isolation(false)]
pub fn replace_one_query(
    buffer: &mut EditorBuffer,
    query: &SearchQuery,
    range: Range<usize>,
    replacement: &str,
) -> (r: Result<bool, EditorError>)
    ensures
        ({
            let t = old(buffer).text_view();
            let pre_ok = range.start < range.end && range.end <= byte_len(t) && is_char_boundary(
                t,
                range.start as nat,
            ) && is_char_boundary(t, range.end as nat);
            let found = replacement_at(
                replacements_for(*query, t, replacement@),
                range.start as nat,
                range.end as nat,
                0,
            );
            let changed = r matches Ok(true);
            &&& (!pre_ok ==> r matches Ok(false))
            &&& (pre_ok && !query_compiles(*query) ==> (r matches Err(e) && query_error(*query, e)))
            &&& (pre_ok && query_compiles(*query) && found is None ==> r matches Ok(false))
            &&& (pre_ok && query_compiles(*query) && found is Some ==> (r is Ok && (changed
                <==> byte_len(t) + byte_len(found->0) <= usize::MAX)))
            &&& (!changed ==> final(buffer).text_view() == t && final(buffer).cursor_view()
                == old(buffer).cursor_view() && final(buffer).undo_view() == old(buffer).undo_view()
                && final(buffer).redo_view() == old(buffer).redo_view()
                && final(buffer).version_view() == old(buffer).version_view())
            &&& (changed ==> found is Some && final(buffer).text_view() == insert_at(
                remove_range(
                    t,
                    char_of_byte(t, range.start as nat),
                    char_of_byte(t, range.end as nat),
                ),
                char_of_byte(t, range.start as nat),
                found->0,
            ) && final(buffer).cursor_view() == range.start + byte_len(found->0)
                && final(buffer).version_view() == next_version(old(buffer).version_view()))
        }),
{
    let len = buffer.len_bytes();
    if range.start >= range.end || range.end > len {
        return Ok(false);
    }
    if !buffer.is_char_boundary(range.start) || !buffer.is_char_boundary(range.end) {
        return Ok(false);
    }
    let text = rope_to_string(buffer.text());
    let reps = match collect_replacements(text.as_str(), query, replacement) {
        Ok(v) => v,
        Err(e) => {
            return Err(e);
        },
    };
    let ghost rv = batch_view(reps@);
    let ghost b0 = *buffer;
    let mut i: usize = 0;
    while i < reps.len()
        invariant
            *buffer == b0,
            i <= reps@.len(),
            rv == batch_view(reps@),
            replacement_at(rv, range.start as nat, range.end as nat, i as nat) == replacement_at(
                rv,
                range.start as nat,
                range.end as nat,
                0,
            ),
        decreases reps@.len() - i,
    {
        if reps[i].0.start == range.start && reps[i].0.end == range.end {
            proof {
                assert(rv[i as int] == (range.start as nat, range.end as nat, reps@[i as int].1@));
            }
            let x = reps[i].1.as_str();
            let xn = crate::text::str_byte_len(x);
            if xn > usize::MAX - len {
                return Ok(false);
            }
            buffer.replace_range(range, x);
            return Ok(true);
        }
        i = i + 1;
    }
    Ok(false)
}

} // verus!
