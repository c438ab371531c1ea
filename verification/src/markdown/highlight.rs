//! Line highlighting for Markdown: fenced code, frontmatter, tables,
//! thematic breaks, headings, block quotes and callouts, task markers, and
//! the inline pass, with delimiters concealed away from the cursor.
use vstd::prelude::*;
use crate::buffer::{min_nat, point_of_offset, EditorBuffer};
use crate::markdown::config::{ConcealMode, MarkdownConfig, MarkdownHighlighter};
use crate::markdown::folding::{frontmatter_spec, heading_level_of};
use crate::markdown::inline::{
    cursor_inside, highlight_inline_markdown, inline_spans, is_inside, push_span, spans_view, tagged,
    InlineEventView,
};
use crate::markdown::links::{cmark_link_events, in_block, links_from, links_view, wikilinks_from, with_wikilinks};
use crate::markdown::list::starts_with;
use crate::markdown::list_tab::line_at;
use crate::markdown::table::{
    cell_spans, count_below, fences_upto, layouts_from, sep_pipes, strip_eol, TableAlignment,
    TableRowKind, TABLE_CELL_TAG, TABLE_DELIMITER_TAG, TABLE_HEADER_TAG,
};
use crate::markdown::table_pads::{kind_in, layout_index, row_pads};
use crate::rope_text::line_count;
use crate::syntax::{CalloutKind, HighlightTag, StyleSpan, StyleValue};
use crate::text::{
    byte_at, byte_len, char_offsets, is_white_space, skip_space, skip_space_exec, str_chars, trim_end,
};

verus! {

/// The first index from `i` on where `cs` holds `c`.
pub open spec fn find_char(cs: Seq<char>, i: nat, c: char) -> Option<nat>
    decreases cs.len() - i,
{
    if i >= cs.len() {
        None
    } else if cs[i as int] == c {
        Some(i)
    } else {
        find_char(cs, i + 1, c)
    }
}

/// A found character lies at or after where the search began.
pub proof fn lemma_find_char(cs: Seq<char>, i: nat, c: char)
    ensures
        find_char(cs, i, c) matches Some(k) ==> i <= k < cs.len() && cs[k as int] == c,
    decreases cs.len() - i,
{
    if i < cs.len() {
        lemma_find_char(cs, i + 1, c);
    }
}

/// The first index from `i` on that is not a space or a tab.
pub open spec fn skip_blanks(cs: Seq<char>, i: nat) -> nat
    decreases cs.len() - i,
{
    if i < cs.len() && (cs[i as int] == ' ' || cs[i as int] == '\t') {
        skip_blanks(cs, i + 1)
    } else {
        i
    }
}

/// `name` spells `upper` (upper-case ASCII letters) in either case.
pub open spec fn name_is(name: Seq<char>, upper: Seq<char>) -> bool {
    name.len() == upper.len() && forall|k: int|
        0 <= k < name.len() ==> name[k] == upper[k] || (name[k] as u32) == (upper[k] as u32) + 32
}

/// The callout kind a `[!name]` names; unknown names give `Other`.
pub open spec fn kind_of_name(name: Seq<char>) -> CalloutKind {
    if name_is(name, seq!['N', 'O', 'T', 'E']) {
        CalloutKind::Note
    } else if name_is(name, seq!['T', 'I', 'P']) {
        CalloutKind::Tip
    } else if name_is(name, seq!['W', 'A', 'R', 'N', 'I', 'N', 'G']) {
        CalloutKind::Warning
    } else if name_is(name, seq!['C', 'A', 'U', 'T', 'I', 'O', 'N']) {
        CalloutKind::Caution
    } else if name_is(name, seq!['I', 'M', 'P', 'O', 'R', 'T', 'A', 'N', 'T']) {
        CalloutKind::Important
    } else {
        CalloutKind::Other
    }
}

/// The callout header of a line `> [!KIND]…`: its kind, the byte range of
/// the marker (from after `> ` through `]`, a `-` or `+` fold suffix and
/// the blanks before the title), and the title's byte range when any text
/// follows.
pub open spec fn callout_header(cs: Seq<char>) -> Option<(CalloutKind, nat, nat, Option<(nat, nat)>)> {
    let ws: int = skip_space(cs, 0) as int;
    if !(ws + 4 <= cs.len() && cs[ws] == '>' && cs[ws + 1] == ' ' && cs[ws + 2] == '['
        && cs[ws + 3] == '!') {
        None
    } else {
        let r2 = (ws + 4) as nat;
        match find_char(cs, r2, ']') {
            None => None,
            Some(cl) => if cl == r2 {
                None
            } else {
                let me = cl + 1;
                let me2 = if me < cs.len() && (cs[me as int] == '-' || cs[me as int] == '+') {
                    me + 1
                } else {
                    me
                };
                let ts = byte_at(cs, skip_blanks(cs, me2) as int);
                Some(
                    (
                        kind_of_name(cs.subrange(r2 as int, cl as int)),
                        byte_at(cs, ws + 2),
                        ts,
                        if ts < byte_len(cs) {
                            Some((ts, byte_len(cs)))
                        } else {
                            None
                        },
                    ),
                )
            },
        }
    }
}

/// A block-quote line once left-trimmed: `> …` or a lone `>`.
pub open spec fn quote_line(tr: Seq<char>) -> bool {
    starts_with(tr, seq!['>', ' ']) || tr == seq!['>']
}

/// `cs` without any trailing `\r` and `\n` characters.
pub open spec fn strip_breaks(cs: Seq<char>) -> Seq<char>
    decreases cs.len(),
{
    if cs.len() > 0 && (cs.last() == '\r' || cs.last() == '\n') {
        strip_breaks(cs.drop_last())
    } else {
        cs
    }
}

/// The callout kind inherited by a body line from the nearest header at
/// or above row `r - 1`; a blank or non-quote line ends the block.
pub open spec fn callout_above(t: Seq<char>, r: nat) -> Option<CalloutKind>
    decreases r,
{
    if r == 0 {
        None
    } else {
        let text = strip_breaks(line_at(t, (r - 1) as nat));
        let tr = text.skip(skip_space(text, 0) as int);
        if tr.len() == 0 || !quote_line(tr) {
            None
        } else {
            match callout_header(text) {
                Some(h) => Some(h.0),
                None => callout_above(t, (r - 1) as nat),
            }
        }
    }
}

/// The callout a quote line `cs` at `row` belongs to: its own header, or
/// the kind of the block it continues (with no header).
pub open spec fn callout_at(t: Seq<char>, row: nat, cs: Seq<char>) -> Option<
    (CalloutKind, Option<(CalloutKind, nat, nat, Option<(nat, nat)>)>),
> {
    match callout_header(cs) {
        Some(h) => Some((h.0, Some(h))),
        None => match callout_above(t, row) {
            Some(k) => Some((k, None)),
            None => None,
        },
    }
}

fn name_is_exec(cs: &Vec<char>, a: usize, b: usize, upper: &Vec<char>) -> (r: bool)
    requires
        a <= b <= cs@.len(),
    ensures
        r == name_is(cs@.subrange(a as int, b as int), upper@),
{
    let ghost name = cs@.subrange(a as int, b as int);
    if b - a != upper.len() {
        return false;
    }
    let mut k: usize = 0;
    while k < upper.len()
        invariant
            a <= b <= cs@.len(),
            b - a == upper@.len(),
            name == cs@.subrange(a as int, b as int),
            k <= upper@.len(),
            forall|m: int| 0 <= m < k ==> name[m] == upper@[m] || (name[m] as u32) == (upper@[m] as u32) + 32,
        decreases upper@.len() - k,
    {
        let c = cs[a + k];
        let u = upper[k];
        proof {
            assert(name[k as int] == c);
        }
        let cu = c as u32;
        let uu = u as u32;
        if !(c == u || (cu >= 32 && cu - 32 == uu)) {
            return false;
        }
        k = k + 1;
    }
    true
}

fn kind_of_name_exec(cs: &Vec<char>, a: usize, b: usize) -> (k: CalloutKind)
    requires
        a <= b <= cs@.len(),
    ensures
        k == kind_of_name(cs@.subrange(a as int, b as int)),
{
    let note = vec!['N', 'O', 'T', 'E'];
    let tip = vec!['T', 'I', 'P'];
    let warning = vec!['W', 'A', 'R', 'N', 'I', 'N', 'G'];
    let caution = vec!['C', 'A', 'U', 'T', 'I', 'O', 'N'];
    let important = vec!['I', 'M', 'P', 'O', 'R', 'T', 'A', 'N', 'T'];
    proof {
        assert(note@ =~= seq!['N', 'O', 'T', 'E']);
        assert(tip@ =~= seq!['T', 'I', 'P']);
        assert(warning@ =~= seq!['W', 'A', 'R', 'N', 'I', 'N', 'G']);
        assert(caution@ =~= seq!['C', 'A', 'U', 'T', 'I', 'O', 'N']);
        assert(important@ =~= seq!['I', 'M', 'P', 'O', 'R', 'T', 'A', 'N', 'T']);
    }
    if name_is_exec(cs, a, b, &note) {
        CalloutKind::Note
    } else if name_is_exec(cs, a, b, &tip) {
        CalloutKind::Tip
    } else if name_is_exec(cs, a, b, &warning) {
        CalloutKind::Warning
    } else if name_is_exec(cs, a, b, &caution) {
        CalloutKind::Caution
    } else if name_is_exec(cs, a, b, &important) {
        CalloutKind::Important
    } else {
        CalloutKind::Other
    }
}

/// The callout header of a line (see [`callout_header`]).
fn parse_callout_header(cs: &Vec<char>, offs: &Vec<usize>) -> (r: Option<(CalloutKind, usize, usize, Option<(usize, usize)>)>)
    requires
        offs@.len() == cs@.len() + 1,
        forall|m: int| 0 <= m <= cs@.len() ==> offs@[m] == byte_at(cs@, m),
    ensures
        match r {
            Some(h) => callout_header(cs@) == Some(
                (
                    h.0,
                    h.1 as nat,
                    h.2 as nat,
                    match h.3 {
                        Some(tt) => Some((tt.0 as nat, tt.1 as nat)),
                        None => None,
                    },
                ),
            ),
            None => callout_header(cs@) is None,
        },
{
    let n = cs.len();
    let ws = skip_space_exec(cs, 0);
    if !(n >= 4 && ws <= n - 4 && cs[ws] == '>' && cs[ws + 1] == ' ' && cs[ws + 2] == '[' && cs[ws + 3] == '!') {
        return None;
    }
    let r2 = ws + 4;
    let mut cl = r2;
    while cl < n && cs[cl] != ']'
        invariant
            n == cs@.len(),
            r2 <= cl <= n,
            find_char(cs@, cl as nat, ']') == find_char(cs@, r2 as nat, ']'),
        decreases n - cl,
    {
        cl = cl + 1;
    }
    if cl >= n || cl == r2 {
        return None;
    }
    let kind = kind_of_name_exec(cs, r2, cl);
    let me = cl + 1;
    let me2 = if me < n && (cs[me] == '-' || cs[me] == '+') { me + 1 } else { me };
    let mut t = me2;
    while t < n && (cs[t] == ' ' || cs[t] == '\t')
        invariant
            n == cs@.len(),
            me2 <= t <= n,
            skip_blanks(cs@, t as nat) == skip_blanks(cs@, me2 as nat),
        decreases n - t,
    {
        t = t + 1;
    }
    let ts = offs[t];
    let len = offs[n];
    let title = if ts < len { Some((ts, len)) } else { None };
    proof {
        assert(find_char(cs@, r2 as nat, ']') == Some(cl as nat));
        assert(skip_blanks(cs@, me2 as nat) == t);
        assert(len == byte_len(cs@)) by {
            crate::text::lemma_byte_at_len(cs@);
        }
    }
    Some((kind, offs[ws + 2], ts, title))
}


/// A parsed header as mathematical integers.
pub open spec fn header_view(h: (CalloutKind, usize, usize, Option<(usize, usize)>)) -> (CalloutKind, nat, nat, Option<(nat, nat)>) {
    (
        h.0,
        h.1 as nat,
        h.2 as nat,
        match h.3 {
            Some(tt) => Some((tt.0 as nat, tt.1 as nat)),
            None => None,
        },
    )
}

fn strip_breaks_exec(v: &Vec<char>) -> (r: Vec<char>)
    ensures
        r@ == strip_breaks(v@),
        byte_len(r@) <= byte_len(v@),
{
    let mut k = v.len();
    proof {
        assert(v@.take(k as int) =~= v@);
    }
    while k > 0 && (v[k - 1] == '\r' || v[k - 1] == '\n')
        invariant
            k <= v@.len(),
            strip_breaks(v@.take(k as int)) == strip_breaks(v@),
        decreases k,
    {
        proof {
            let c = v@.take(k as int);
            assert(c.last() == v@[k - 1]);
            assert(c.drop_last() =~= v@.take(k - 1));
        }
        k = k - 1;
    }
    let r = crate::text::slice_chars(v, 0, k);
    proof {
        assert(r@ =~= v@.take(k as int));
        crate::text::lemma_byte_at_mono(v@, k as int, v@.len() as int);
        crate::text::lemma_byte_at_len(v@);
        let c = v@.take(k as int);
        if c.len() > 0 {
            assert(c.last() == v@[k - 1]);
        }
    }
    r
}

/// The callout a quote line at `row` belongs to (see [`callout_at`]).
fn callout_at_row(buffer: &EditorBuffer, row: usize, cs: &Vec<char>, offs: &Vec<usize>) -> (r: Option<
    (CalloutKind, Option<(CalloutKind, usize, usize, Option<(usize, usize)>)>),
>)
    requires
        offs@.len() == cs@.len() + 1,
        forall|m: int| 0 <= m <= cs@.len() ==> offs@[m] == byte_at(cs@, m),
    ensures
        match r {
            Some(p) => callout_at(buffer.text_view(), row as nat, cs@) == Some(
                (
                    p.0,
                    match p.1 {
                        Some(h) => Some(header_view(h)),
                        None => None,
                    },
                ),
            ),
            None => callout_at(buffer.text_view(), row as nat, cs@) is None,
        },
{
    match parse_callout_header(cs, offs) {
        Some(h) => {
            return Some((h.0, Some(h)));
        },
        None => {},
    }
    let ghost t = buffer.text_view();
    let mut above = row;
    while above > 0
        invariant
            t == buffer.text_view(),
            callout_header(cs@) is None,
            above <= row,
            callout_above(t, above as nat) == callout_above(t, row as nat),
        decreases above,
    {
        let raw = buffer.line_to_string(above - 1);
        let chars = str_chars(raw.as_str());
        let text = strip_breaks_exec(&chars);
        proof {
            assert(chars@ == line_at(t, (above - 1) as nat));
        }
        let n = text.len();
        let w = skip_space_exec(&text, 0);
        let tr = Ghost(text@.skip(w as int));
        let quote = n > w && text[w] == '>' && ((n - w >= 2 && text[w + 1] == ' ') || n - w == 1);
        proof {
            if quote {
                if n - w >= 2 && text@[w + 1] == ' ' {
                    assert(tr@.take(2) =~= seq!['>', ' ']);
                } else {
                    assert(tr@ =~= seq!['>']);
                }
            } else {
                if starts_with(tr@, seq!['>', ' ']) {
                    assert(tr@.take(2)[0] == tr@[0]);
                    assert(tr@.take(2)[1] == tr@[1]);
                }
                if tr@ == seq!['>'] {
                    assert(tr@[0] == '>');
                }
            }
        }
        if !quote {
            return None;
        }
        let toffs = char_offsets(&text);
        match parse_callout_header(&text, &toffs) {
            Some(h) => {
                return Some((h.0, None));
            },
            None => {},
        }
        above = above - 1;
    }
    None
}


/// A span as the triple the specifications use.
pub type SpanView = (nat, nat, StyleValue);

/// The tag concealed delimiters take in a conceal mode.
pub open spec fn delim_of(m: ConcealMode) -> Option<HighlightTag> {
    match m {
        ConcealMode::Off => None,
        ConcealMode::Dimmed => Some(HighlightTag::Dimmed),
        ConcealMode::Hidden => Some(HighlightTag::Hidden),
    }
}

/// The delimiter tag, or `Comment` when nothing conceals.
pub open spec fn or_comment(d: Option<HighlightTag>) -> HighlightTag {
    match d {
        Some(t) => t,
        None => HighlightTag::Comment,
    }
}

/// A left-trimmed line opening a fence: three backticks or tildes.
pub open spec fn fence_open(tr: Seq<char>) -> bool {
    starts_with(tr, seq!['`', '`', '`']) || starts_with(tr, seq!['~', '~', '~'])
}

/// A trimmed line that is a thematic break.
pub open spec fn is_break(tb: Seq<char>) -> bool {
    tb == seq!['-', '-', '-'] || tb == seq!['*', '*', '*'] || tb == seq!['_', '_', '_']
}

/// A left-trimmed line starting with a task marker (`- [ ]`, `* [x]`, …),
/// alone or followed by a space.
pub open spec fn task_line(tr: Seq<char>) -> bool {
    tr.len() >= 5 && (tr[0] == '-' || tr[0] == '*') && tr[1] == ' ' && tr[2] == '[' && (tr[3] == ' '
        || tr[3] == 'x' || tr[3] == 'X') && tr[4] == ']' && (tr.len() == 5 || tr[5] == ' ')
}

/// The part of a table block `row` is in.
pub open spec fn block_part(s: (nat, nat, nat, Seq<TableAlignment>), row: nat) -> Option<TableRowKind> {
    if row == s.0 {
        Some(TableRowKind::Header)
    } else if row == s.1 {
        Some(TableRowKind::Delimiter)
    } else if s.1 < row && row <= s.2 {
        Some(TableRowKind::Body)
    } else {
        None
    }
}

/// The table part of `row`, when tables are styled and the row lies in
/// one of the document's table blocks (the first that holds it).
pub open spec fn table_kind(c: MarkdownConfig, t: Seq<char>, row: nat) -> Option<TableRowKind> {
    let ls = crate::markdown::table::layouts_from(t, fences_upto(t, line_count(t)), 0);
    if c.visual_tables && row < line_count(t) {
        match layout_index(ls, row, 0) {
            Some(k) => block_part(ls[k as int], row),
            None => None,
        }
    } else {
        None
    }
}

/// Byte offsets of the unescaped pipes of a table line.
pub open spec fn pipe_offsets(cs: Seq<char>) -> Seq<nat> {
    let c = strip_eol(cs);
    sep_pipes(c).map_values(|k: nat| byte_at(c, k as int))
}

/// Each pipe as punctuation, then dimmed too when `dim`.
pub open spec fn pipe_spans(ps: Seq<nat>, dim: bool) -> Seq<SpanView>
    decreases ps.len(),
{
    if ps.len() == 0 {
        Seq::empty()
    } else {
        let p = ps.last();
        pipe_spans(ps.drop_last(), dim) + seq![tagged(p, p + 1, HighlightTag::Punctuation)] + if dim {
            seq![tagged(p, p + 1, HighlightTag::Dimmed)]
        } else {
            Seq::empty()
        }
    }
}

/// Character `k` of `cs` is not whitespace and starts within bytes `s..e`.
pub open spec fn text_at(cs: Seq<char>, s: nat, e: nat, k: int) -> bool {
    0 <= k < cs.len() && s <= byte_at(cs, k) && byte_at(cs, k) < e && !is_white_space(cs[k])
}

/// Some non-whitespace character of `cs` starts within bytes `s..e`.
pub open spec fn has_text(cs: Seq<char>, s: nat, e: nat) -> bool {
    exists|k: int| #[trigger] text_at(cs, s, e, k)
}

/// Byte ranges of the cells of a table line.
pub open spec fn cell_offsets(cs: Seq<char>) -> Seq<(nat, nat)> {
    let c = strip_eol(cs);
    crate::markdown::table::cell_spans(c).map_values(|p: (nat, nat)| (byte_at(c, p.0 as int), byte_at(c, p.1 as int)))
}

/// Each non-empty cell with the header or cell tag, header cells with
/// text also bold.
pub open spec fn cell_part(cs: Seq<char>, cells: Seq<(nat, nat)>, header: bool) -> Seq<SpanView>
    decreases cells.len(),
{
    if cells.len() == 0 {
        Seq::empty()
    } else {
        let cell = cells.last();
        let s = cell.0;
        let e = min_nat(cell.1, byte_len(cs));
        let tag = if header { HighlightTag::Custom(TABLE_HEADER_TAG) } else { HighlightTag::Custom(TABLE_CELL_TAG) };
        cell_part(cs, cells.drop_last(), header) + if s < e {
            seq![tagged(s, e, tag)] + if header && has_text(cs, s, e) {
                seq![tagged(s, e, HighlightTag::Bold)]
            } else {
                Seq::empty()
            }
        } else {
            Seq::empty()
        }
    }
}

/// A delimiter row: the delimiter tag over the line, its pipes as
/// punctuation, and away from the cursor the whole line dimmed (or
/// commented when nothing conceals).
pub open spec fn delimiter_row_spans(cs: Seq<char>, cur_row: bool, delim: Option<HighlightTag>) -> Seq<SpanView> {
    let len = byte_len(cs);
    let d = if delim == Some(HighlightTag::Hidden) { HighlightTag::Dimmed } else { or_comment(delim) };
    seq![tagged(0, len, HighlightTag::Custom(TABLE_DELIMITER_TAG))] + pipe_spans(pipe_offsets(cs), false)
        + if !cur_row { seq![tagged(0, len, d)] } else { Seq::empty() }
}

/// A header or body row: its cells, then its pipes, dimmed away from the
/// cursor unless nothing conceals.
pub open spec fn cell_row_spans(cs: Seq<char>, header: bool, cur_row: bool, m: ConcealMode) -> Seq<SpanView> {
    cell_part(cs, cell_offsets(cs), header) + pipe_spans(pipe_offsets(cs), !cur_row && m != ConcealMode::Off)
}

/// A heading whose `#` prefix spans `pl` bytes from `indent`: the prefix
/// concealed and the text tagged, or the whole line tagged while the
/// cursor is on the prefix or nothing conceals.
pub open spec fn heading_spans(indent: nat, pl: nat, len: nat, level: u8, coff: Option<usize>, delim: Option<HighlightTag>) -> Seq<SpanView> {
    if !cursor_inside(coff, indent, indent + pl) && delim is Some {
        seq![tagged(indent, indent + pl, delim->0)] + if indent + pl < len {
            seq![tagged(indent + pl, len, HighlightTag::Heading(level))]
        } else {
            seq![tagged(indent, indent + pl, HighlightTag::Heading(level))]
        }
    } else {
        seq![tagged(0, len, HighlightTag::Heading(level))]
    }
}

/// A quote line: the structural tag on its `>` prefix, the prefix
/// concealed (or commented), then for a callout the callout tag over the
/// line and either its header (marker concealed, title bold) or the body
/// text commented.
pub open spec fn quote_spans(t: Seq<char>, row: nat, cs: Seq<char>, coff: Option<usize>, delim: Option<HighlightTag>) -> Seq<SpanView> {
    let len = byte_len(cs);
    let ws = skip_space(cs, 0);
    let tr = cs.skip(ws as int);
    let indent = byte_at(cs, ws as int);
    let ql: nat = if starts_with(tr, seq!['>', ' ']) { 2 } else { 1 };
    seq![tagged(indent, indent + ql, HighlightTag::Blockquote)] + (if !cursor_inside(coff, indent, indent + ql)
        && delim is Some {
        seq![tagged(indent, indent + ql, delim->0)]
    } else {
        seq![tagged(indent, indent + 1, HighlightTag::Comment)]
    }) + match callout_at(t, row, cs) {
        None => Seq::empty(),
        Some(p) => seq![tagged(0, len, HighlightTag::Callout(p.0))] + match p.1 {
            None => if indent + ql < len {
                seq![tagged(indent + ql, len, HighlightTag::Comment)]
            } else {
                Seq::empty()
            },
            Some(h) => (if !cursor_inside(coff, h.1, h.2) && delim is Some {
                seq![tagged(h.1, h.2, delim->0)]
            } else {
                Seq::empty()
            }) + match h.3 {
                Some(tt) => seq![tagged(tt.0, tt.1, HighlightTag::Bold)],
                None => Seq::empty(),
            },
        },
    }
}

/// A task line: the task tag over its marker, and the marker concealed
/// (whole when hidden, its bullet when dimmed) unless the cursor is on it.
pub open spec fn task_spans(tr: Seq<char>, indent: nat, coff: Option<usize>, delim: Option<HighlightTag>) -> Seq<SpanView> {
    let ml: nat = if tr.len() >= 6 { 6 } else { 5 };
    let tag = if tr[3] == ' ' { HighlightTag::TaskUnchecked } else { HighlightTag::TaskChecked };
    seq![tagged(indent, indent + ml, tag)] + if !cursor_inside(coff, indent, indent + ml) && delim is Some {
        if delim == Some(HighlightTag::Hidden) {
            seq![tagged(indent, indent + ml, HighlightTag::Hidden)]
        } else {
            seq![tagged(indent, indent + 2, delim->0)]
        }
    } else {
        Seq::empty()
    }
}

/// The spans after any table styling `acc`: a thematic break or a heading
/// ends the line; otherwise quote and task styling, then the inline pass.
pub open spec fn line_body_spans(
    c: MarkdownConfig,
    t: Seq<char>,
    row: nat,
    cs: Seq<char>,
    coff: Option<usize>,
    delim: Option<HighlightTag>,
    evs: Seq<InlineEventView>,
    acc: Seq<SpanView>,
) -> Seq<SpanView> {
    let len = byte_len(cs);
    let ws = skip_space(cs, 0);
    let tr = cs.skip(ws as int);
    let indent = byte_at(cs, ws as int);
    if c.visual_thematic_breaks && is_break(trim_end(tr)) && len >= 3 {
        acc + seq![tagged(0, len, HighlightTag::HorizontalRule), tagged(0, len, or_comment(delim))]
    } else if heading_level_of(tr) is Some {
        let level = heading_level_of(tr)->0;
        acc + heading_spans(indent, (level + 1) as nat, len, level, coff, delim)
    } else {
        let a1 = if quote_line(tr) { acc + quote_spans(t, row, cs, coff, delim) } else { acc };
        let a2 = if task_line(tr) { a1 + task_spans(tr, indent, coff, delim) } else { a1 };
        inline_spans(cs, coff, delim, evs, a2)
    }
}

/// The spans of line `cs` shown at `row` of the text `t` with the cursor at
/// byte `cursor`, under the settings `c`, given the line's CommonMark
/// events `evs`.
pub open spec fn markdown_line_spans(
    c: MarkdownConfig,
    t: Seq<char>,
    cursor: nat,
    row: usize,
    cs: Seq<char>,
    evs: Seq<InlineEventView>,
) -> Seq<SpanView> {
    let len = byte_len(cs);
    let tr = cs.skip(skip_space(cs, 0) as int);
    let delim = delim_of(c.conceal_mode);
    let pt = point_of_offset(t, cursor);
    let cur_row = row as nat == pt.0;
    let coff: Option<usize> = if cur_row { Some(min_nat(pt.1, len) as usize) } else { None };
    let fences = fences_upto(t, line_count(t));
    if fence_open(tr) || count_below(fences, row) % 2 == 1 {
        seq![tagged(0, len, HighlightTag::Code)]
    } else if frontmatter_spec(t, fences) matches Some(b) && b.0 <= row && row < b.1 {
        if c.conceal_mode != ConcealMode::Off {
            seq![tagged(0, len, HighlightTag::Dimmed)]
        } else {
            Seq::empty()
        }
    } else {
        let tk = table_kind(c, t, row as nat);
        if tk == Some(TableRowKind::Delimiter) {
            delimiter_row_spans(cs, cur_row, delim)
        } else {
            let acc = match tk {
                Some(k) => cell_row_spans(cs, k == TableRowKind::Header, cur_row, c.conceal_mode),
                None => Seq::empty(),
            };
            line_body_spans(c, t, row as nat, cs, coff, delim, evs, acc)
        }
    }
}


/// `strip_eol` keeps a prefix of the line, so its bytes fit in the line's.
proof fn lemma_strip_eol_prefix(cs: Seq<char>)
    ensures
        strip_eol(cs) == cs.take(strip_eol(cs).len() as int),
        strip_eol(cs).len() <= cs.len(),
        byte_len(strip_eol(cs)) <= byte_len(cs),
{
    let c = strip_eol(cs);
    assert(c =~= cs.take(c.len() as int));
    crate::text::lemma_byte_at_mono(cs, c.len() as int, cs.len() as int);
    crate::text::lemma_byte_at_len(cs);
    assert(cs.take(cs.len() as int) =~= cs);
}


/// The part of the first table block holding `row` (see [`table_kind`],
/// without the setting).
fn block_kind_at(buffer: &EditorBuffer, row: usize) -> (r: Option<TableRowKind>)
    ensures
        ({
            let t = buffer.text_view();
            let ls = crate::markdown::table::layouts_from(t, fences_upto(t, line_count(t)), 0);
            r == if row < line_count(t) {
                match layout_index(ls, row as nat, 0) {
                    Some(k) => block_part(ls[k as int], row as nat),
                    None => None,
                }
            } else {
                None
            }
        }),
{
    if row >= buffer.len_lines() {
        return None;
    }
    let layouts = crate::markdown::table::table_layouts(buffer);
    let ghost t = buffer.text_view();
    let ghost ls = crate::markdown::table::layouts_from(t, fences_upto(t, line_count(t)), 0);
    let mut k: usize = 0;
    while k < layouts.len()
        invariant
            t == buffer.text_view(),
            row < line_count(t),
            ls == crate::markdown::table::layouts_from(t, fences_upto(t, line_count(t)), 0),
            layouts@.len() == ls.len(),
            forall|m: int| 0 <= m < layouts@.len() ==> crate::markdown::table::layout_matches(#[trigger] layouts@[m], ls[m], t),
            k <= layouts@.len(),
            layout_index(ls, row as nat, k as nat) == layout_index(ls, row as nat, 0),
        decreases layouts@.len() - k,
    {
        proof {
            assert(crate::markdown::table::layout_matches(layouts@[k as int], ls[k as int], t));
        }
        let inb = layouts[k].block.contains(row);
        proof {
            let b = layouts@[k as int].block;
            assert(crate::markdown::table::block_matches(b, ls[k as int]));
            assert(inb == crate::markdown::links::in_block(ls[k as int], row as nat));
        }
        if inb {
            let r = layouts[k].block.kind_at(row);
            proof {
                assert(layout_index(ls, row as nat, k as nat) == Some(k as nat));
                assert(r == block_part(ls[k as int], row as nat));
            }
            return r;
        }
        k = k + 1;
    }
    None
}

/// Every pipe offset lies before the line's end.
proof fn lemma_pipe_bound(cs: Seq<char>)
    ensures
        forall|k: int| 0 <= k < pipe_offsets(cs).len() ==> #[trigger] pipe_offsets(cs)[k] < byte_len(cs),
{
    let c = strip_eol(cs);
    lemma_strip_eol_prefix(cs);
    crate::markdown::table::lemma_pipes_upto(c, c.len());
    assert forall|k: int| 0 <= k < pipe_offsets(cs).len() implies #[trigger] pipe_offsets(cs)[k] < byte_len(cs) by {
        let i = sep_pipes(c)[k];
        assert(sep_pipes(c)[k] < c.len());
        crate::text::lemma_byte_at_step(c, i as int);
        crate::text::lemma_byte_at_mono(c, i + 1 as int, c.len() as int);
        crate::text::lemma_byte_at_len(c);
    }
}

fn push_pipes(spans: &mut Vec<StyleSpan>, pipes: &Vec<usize>, dim: bool, Ghost(ps): Ghost<Seq<nat>>, Ghost(len): Ghost<nat>)
    requires
        ps.len() == pipes@.len(),
        forall|k: int| 0 <= k < ps.len() ==> ps[k] == pipes@[k] && #[trigger] ps[k] < len,
        len <= usize::MAX,
    ensures
        spans_view(final(spans)@) == spans_view(old(spans)@) + pipe_spans(ps, dim),
{
    let ghost base = spans_view(spans@);
    let mut k: usize = 0;
    proof {
        assert(ps.take(0) =~= Seq::<nat>::empty());
    }
    while k < pipes.len()
        invariant
            ps.len() == pipes@.len(),
            forall|m: int| 0 <= m < ps.len() ==> ps[m] == pipes@[m] && #[trigger] ps[m] < len,
            len <= usize::MAX,
            k <= pipes@.len(),
            spans_view(spans@) == base + pipe_spans(ps.take(k as int), dim),
        decreases pipes@.len() - k,
    {
        let p = pipes[k];
        proof {
            assert(ps[k as int] < len);
        }
        let ghost pre = spans_view(spans@);
        push_span(spans, p, p + 1, StyleValue::Tag(HighlightTag::Punctuation));
        if dim {
            push_span(spans, p, p + 1, StyleValue::Tag(HighlightTag::Dimmed));
        }
        proof {
            let q = ps.take(k + 1);
            assert(q.drop_last() =~= ps.take(k as int));
            assert(q.last() == p);
            assert(spans_view(spans@) =~= base + pipe_spans(q, dim));
        }
        k = k + 1;
    }
    proof {
        assert(ps.take(k as int) =~= ps);
    }
}

/// Whether some non-whitespace character starts within bytes `s..e`.
#[verifier::rlimit(40)]
fn has_text_exec(cs: &Vec<char>, offs: &Vec<usize>, s: usize, e: usize) -> (b: bool)
    requires
        offs@.len() == cs@.len() + 1,
        forall|m: int| 0 <= m <= cs@.len() ==> offs@[m] == byte_at(cs@, m),
    ensures
        b == has_text(cs@, s as nat, e as nat),
{
    let mut k: usize = 0;
    while k < cs.len()
        invariant
            offs@.len() == cs@.len() + 1,
            forall|m: int| 0 <= m <= cs@.len() ==> offs@[m] == byte_at(cs@, m),
            k <= cs@.len(),
            forall|m: int| 0 <= m < k ==> !#[trigger] text_at(cs@, s as nat, e as nat, m),
        decreases cs@.len() - k,
    {
        if s <= offs[k] && offs[k] < e && !crate::text::char_is_whitespace(cs[k]) {
            proof {
                assert(text_at(cs@, s as nat, e as nat, k as int));
            }
            return true;
        }
        k = k + 1;
    }
    proof {
        assert forall|m: int| !#[trigger] text_at(cs@, s as nat, e as nat, m) by {
            if 0 <= m < cs@.len() {
                assert(!text_at(cs@, s as nat, e as nat, m));
            }
        }
    }
    false
}

fn push_cells(
    cs: &Vec<char>,
    offs: &Vec<usize>,
    spans: &mut Vec<StyleSpan>,
    cells: &Vec<std::ops::Range<usize>>,
    header: bool,
    Ghost(cv): Ghost<Seq<(nat, nat)>>,
)
    requires
        offs@.len() == cs@.len() + 1,
        forall|m: int| 0 <= m <= cs@.len() ==> offs@[m] == byte_at(cs@, m),
        cv.len() == cells@.len(),
        forall|k: int| 0 <= k < cv.len() ==> cv[k] == (#[trigger] cells@[k].start as nat, cells@[k].end as nat),
    ensures
        spans_view(final(spans)@) == spans_view(old(spans)@) + cell_part(cs@, cv, header),
{
    let ghost base = spans_view(spans@);
    let len = offs[cs.len()];
    proof {
        crate::text::lemma_byte_at_len(cs@);
        assert(cv.take(0) =~= Seq::<(nat, nat)>::empty());
    }
    let mut k: usize = 0;
    while k < cells.len()
        invariant
            offs@.len() == cs@.len() + 1,
            forall|m: int| 0 <= m <= cs@.len() ==> offs@[m] == byte_at(cs@, m),
            len == byte_len(cs@),
            cv.len() == cells@.len(),
            forall|m: int| 0 <= m < cv.len() ==> cv[m] == (#[trigger] cells@[m].start as nat, cells@[m].end as nat),
            k <= cells@.len(),
            spans_view(spans@) == base + cell_part(cs@, cv.take(k as int), header),
        decreases cells@.len() - k,
    {
        let s = cells[k].start;
        let e = if cells[k].end < len { cells[k].end } else { len };
        proof {
            assert(cv[k as int] == (cells@[k as int].start as nat, cells@[k as int].end as nat));
        }
        if s < e {
            let tag = if header { HighlightTag::Custom(TABLE_HEADER_TAG) } else { HighlightTag::Custom(TABLE_CELL_TAG) };
            push_span(spans, s, e, StyleValue::Tag(tag));
            if header && has_text_exec(cs, offs, s, e) {
                push_span(spans, s, e, StyleValue::Tag(HighlightTag::Bold));
            }
        }
        proof {
            let q = cv.take(k + 1);
            assert(q.drop_last() =~= cv.take(k as int));
            assert(q.last() == cv[k as int]);
            assert(spans_view(spans@) =~= base + cell_part(cs@, q, header));
        }
        k = k + 1;
    }
    proof {
        assert(cv.take(k as int) =~= cv);
    }
}


/// Each character takes at least one byte.
pub(crate) proof fn lemma_byte_at_gap(cs: Seq<char>, i: int, j: int)
    requires
        0 <= i <= j <= cs.len(),
    ensures
        byte_at(cs, j) >= byte_at(cs, i) + (j - i),
    decreases j - i,
{
    if i < j {
        lemma_byte_at_gap(cs, i, j - 1);
        crate::text::lemma_byte_at_step(cs, j - 1);
    }
}

proof fn lemma_three(x: Seq<char>, a: char)
    ensures
        starts_with(x, seq![a, a, a]) <==> (x.len() >= 3 && x[0] == a && x[1] == a && x[2] == a),
        (x == seq![a, a, a]) <==> (x.len() == 3 && x[0] == a && x[1] == a && x[2] == a),
{
    if x.len() >= 3 && x[0] == a && x[1] == a && x[2] == a {
        assert(x.take(3) =~= seq![a, a, a]);
        if x.len() == 3 {
            assert(x =~= seq![a, a, a]);
        }
    }
    if starts_with(x, seq![a, a, a]) {
        assert(x.take(3)[0] == x[0] && x.take(3)[1] == x[1] && x.take(3)[2] == x[2]);
    }
}

proof fn lemma_quote(x: Seq<char>)
    ensures
        starts_with(x, seq!['>', ' ']) <==> (x.len() >= 2 && x[0] == '>' && x[1] == ' '),
        quote_line(x) <==> (x.len() >= 1 && x[0] == '>' && (x.len() == 1 || x[1] == ' ')),
{
    if x.len() >= 2 && x[0] == '>' && x[1] == ' ' {
        assert(x.take(2) =~= seq!['>', ' ']);
    }
    if starts_with(x, seq!['>', ' ']) {
        assert(x.take(2)[0] == x[0] && x.take(2)[1] == x[1]);
    }
    if x.len() == 1 && x[0] == '>' {
        assert(x =~= seq!['>']);
    }
}

impl crate::syntax::SyntaxHighlighter for MarkdownHighlighter {
    /// Styles one line of a Markdown document: fenced code, frontmatter,
    /// tables, thematic breaks, headings, quotes and callouts, task
    /// markers, then the inline constructs (see [`markdown_line_spans`]).
    #[verifier::rlimit(50)]
    fn highlight_line(&self, buffer: &EditorBuffer, row: usize, line_text: &str) -> (spans: Vec<StyleSpan>)
        ensures
            spans_view(spans@) == markdown_line_spans(
                self.spec_config(),
                buffer.text_view(),
                buffer.cursor_view(),
                row,
                line_text@,
                crate::markdown::inline::cmark_inline_events(line_text@),
            ),
    {
        let cfg = *self.config();
        let cs = str_chars(line_text);
        let offs = char_offsets(&cs);
        let n = cs.len();
        let len = offs[n];
        let ws = skip_space_exec(&cs, 0);
        let indent = offs[ws];
        let ghost t = buffer.text_view();
        let ghost tr = cs@.skip(ws as int);
        let tv = crate::text::slice_chars(&cs, ws, n);
        let tn = n - ws;
        proof {
            crate::text::lemma_byte_at_len(cs@);
            assert(tv@ =~= tr);
        }
        let delim = match cfg.conceal_mode {
            ConcealMode::Off => None,
            ConcealMode::Dimmed => Some(HighlightTag::Dimmed),
            ConcealMode::Hidden => Some(HighlightTag::Hidden),
        };
        let pt = buffer.cursor_point();
        let cur_row = row == pt.row;
        let coff = if cur_row {
            Some(if pt.column < len { pt.column } else { len })
        } else {
            None
        };
        let ghost spec_all = markdown_line_spans(cfg, t, buffer.cursor_view(), row, cs@, crate::markdown::inline::cmark_inline_events(line_text@));
        let mut spans: Vec<StyleSpan> = Vec::new();
        proof {
            lemma_three(tr, '`');
            lemma_three(tr, '~');
            assert(spans_view(spans@) =~= Seq::<SpanView>::empty());
        }
        let fence = tn >= 3 && ((tv[0] == '`' && tv[1] == '`' && tv[2] == '`') || (tv[0] == '~' && tv[1] == '~' && tv[2] == '~'));
        if fence || self.is_in_fenced_code_block(buffer, row) {
            push_span(&mut spans, 0, len, StyleValue::Tag(HighlightTag::Code));
            return spans;
        }
        let fences = crate::markdown::table::fence_rows(buffer);
        match crate::markdown::folding::scan_frontmatter(buffer, fences.as_slice()) {
            Some(b) => {
                if b.start <= row && row < b.end {
                    if cfg.conceal_mode != ConcealMode::Off {
                        push_span(&mut spans, 0, len, StyleValue::Tag(HighlightTag::Dimmed));
                    }
                    return spans;
                }
            },
            None => {},
        }
        let tk: Option<TableRowKind> = if cfg.visual_tables {
            block_kind_at(buffer, row)
        } else {
            None
        };
        proof {
            assert(tk == table_kind(cfg, t, row as nat));
            lemma_pipe_bound(cs@);
        }
        match tk {
            Some(TableRowKind::Delimiter) => {
                push_span(&mut spans, 0, len, StyleValue::Tag(HighlightTag::Custom(TABLE_DELIMITER_TAG)));
                let pipes = crate::markdown::table::find_unescaped_pipes(line_text);
                push_pipes(&mut spans, &pipes, false, Ghost(pipe_offsets(cs@)), Ghost(len as nat));
                if !cur_row {
                    let d = match delim {
                        Some(HighlightTag::Hidden) => HighlightTag::Dimmed,
                        Some(x) => x,
                        None => HighlightTag::Comment,
                    };
                    push_span(&mut spans, 0, len, StyleValue::Tag(d));
                }
                proof {
                    assert(spans_view(spans@) =~= delimiter_row_spans(cs@, cur_row, delim));
                }
                return spans;
            },
            Some(k) => {
                let header = match k {
                    TableRowKind::Header => true,
                    _ => false,
                };
                let split = crate::markdown::table::split_table_cells(line_text);
                push_cells(&cs, &offs, &mut spans, &split.1, header, Ghost(cell_offsets(cs@)));
                let pipes = crate::markdown::table::find_unescaped_pipes(line_text);
                let dim = !cur_row && cfg.conceal_mode != ConcealMode::Off;
                push_pipes(&mut spans, &pipes, dim, Ghost(pipe_offsets(cs@)), Ghost(len as nat));
                proof {
                    assert(spans_view(spans@) =~= cell_row_spans(cs@, k == TableRowKind::Header, cur_row, cfg.conceal_mode));
                }
            },
            None => {},
        }
        let ghost acc = spans_view(spans@);
        self.body_spans(buffer, row, line_text, &cs, &offs, &tv, ws, coff, delim, &mut spans);
        proof {
            assert(spans_view(spans@) == line_body_spans(cfg, t, row as nat, cs@, coff, delim, crate::markdown::inline::cmark_inline_events(line_text@), acc));
        }
        spans
    }

    fn extract_links(&self, buffer: &EditorBuffer, row: usize, line_text: &str) -> (links: Vec<(std::ops::Range<usize>, String)>)
        ensures
            ({
                let t = buffer.text_view();
                let fm = crate::markdown::folding::frontmatter_spec(
                    t,
                    crate::markdown::table::fences_upto(t, crate::rope_text::line_count(t)),
                );
                if !(line_text@.contains('[') || line_text@.contains('<')) || (fm matches Some(b) && b.0 <= row
                    && row < b.1) {
                    links@.len() == 0
                } else {
                    links_view(links@) == with_wikilinks(
                        line_text@,
                        wikilinks_from(line_text@, 0),
                        0,
                        links_from(line_text@, cmark_link_events(line_text@), 0, None),
                    )
                }
            }),
    {
        MarkdownHighlighter::extract_links(self, buffer, row, line_text)
    }

    fn expand_line(&self, buffer: &EditorBuffer, row: usize, concealed: &crate::syntax::ConcealedLine) -> (pads: Vec<crate::syntax::DisplayPad>)
        ensures
            ({
                let t = buffer.text_view();
                let c = self.spec_config();
                let ls = layouts_from(t, fences_upto(t, line_count(t)), 0);
                if !(c.visual_tables && c.table_alignment) {
                    pads@.len() == 0
                } else {
                    match layout_index(ls, row as nat, 0) {
                        None => pads@.len() == 0,
                        Some(k) => {
                            let s = ls[k as int];
                            let w = crate::markdown::table::block_widths(t, s.0, s.2, s.3.len());
                            let src = strip_eol(crate::markdown::list_tab::line_at(t, row as nat));
                            pads@ == row_pads(w, s.3, kind_in(s, row as nat), src, *concealed, min_nat(cell_spans(strip_eol(src)).len(), w.len()))
                        },
                    }
                }
            }),
    {
        MarkdownHighlighter::expand_line(self, buffer, row, concealed)
    }

    fn should_wrap_line(&self, buffer: &EditorBuffer, row: usize) -> (wrap: bool)
        ensures
            ({
                let t = buffer.text_view();
                let c = self.spec_config();
                let ls = crate::markdown::table::layouts_from(
                    t,
                    crate::markdown::table::fences_upto(t, crate::rope_text::line_count(t)),
                    0,
                );
                wrap == (!(c.visual_tables && c.table_alignment) || !(exists|k: int|
                    0 <= k < ls.len() && in_block(#[trigger] ls[k], row as nat)))
            }),
    {
        MarkdownHighlighter::should_wrap_line(self, buffer, row)
    }
}


impl MarkdownHighlighter {
    /// The spans after any table styling: a thematic break or a heading
    /// ends the line; otherwise quote and task styling, then the inline
    /// pass.
    #[verifier::rlimit(50)]
    fn body_spans(
        &self,
        buffer: &EditorBuffer,
        row: usize,
        line_text: &str,
        cs: &Vec<char>,
        offs: &Vec<usize>,
        tv: &Vec<char>,
        ws: usize,
        coff: Option<usize>,
        delim: Option<HighlightTag>,
        spans: &mut Vec<StyleSpan>,
    )
        requires
            cs@ == line_text@,
            offs@.len() == cs@.len() + 1,
            forall|m: int| 0 <= m <= cs@.len() ==> offs@[m] == byte_at(cs@, m),
            byte_len(cs@) <= usize::MAX,
            ws == skip_space(cs@, 0),
            ws <= cs@.len(),
            tv@ == cs@.skip(ws as int),
            delim == delim_of(self.spec_config().conceal_mode),
        ensures
            spans_view(final(spans)@) == line_body_spans(
                self.spec_config(),
                buffer.text_view(),
                row as nat,
                cs@,
                coff,
                delim,
                crate::markdown::inline::cmark_inline_events(line_text@),
                spans_view(old(spans)@),
            ),
    {
        let cfg = *self.config();
        let ghost tr = tv@;
        let ghost acc = spans_view(spans@);
        let n = cs.len();
        let len = offs[n];
        let indent = offs[ws];
        let tn = tv.len();
        proof {
            crate::text::lemma_byte_at_len(cs@);
            lemma_byte_at_gap(cs@, ws as int, n as int);
        }
        if cfg.visual_thematic_breaks && len >= 3 {
            let te = crate::text::skip_space_back_exec(tv, tn);
            let brk = te == 3 && ((tv[0] == '-' && tv[1] == '-' && tv[2] == '-') || (tv[0] == '*' && tv[1]
                == '*' && tv[2] == '*') || (tv[0] == '_' && tv[1] == '_' && tv[2] == '_'));
            proof {
                let tb = trim_end(tr);
                assert(tb == tr.take(te as int));
                lemma_three(tb, '-');
                lemma_three(tb, '*');
                lemma_three(tb, '_');
                if te == 3 {
                    assert(tb[0] == tv@[0] && tb[1] == tv@[1] && tb[2] == tv@[2]);
                }
            }
            if brk {
                push_span(spans, 0, len, StyleValue::Tag(HighlightTag::HorizontalRule));
                let d = match delim {
                    Some(x) => x,
                    None => HighlightTag::Comment,
                };
                push_span(spans, 0, len, StyleValue::Tag(d));
                proof {
                    assert(spans_view(spans@) =~= acc + seq![tagged(0, len as nat, HighlightTag::HorizontalRule), tagged(0, len as nat, or_comment(delim))]);
                }
                return;
            }
        }
        let tstr = crate::text::chars_to_string(tv);
        match crate::markdown::folding::heading_level(tstr.as_str()) {
            Some(level) => {
                let pl = level as usize + 1;
                proof {
                    assert(tr[level as int] == ' ');
                    lemma_byte_at_gap(cs@, ws as int, ws + pl as int);
                    crate::text::lemma_byte_at_mono(cs@, ws + pl as int, n as int);
                }
                let inside = is_inside(coff, indent, indent + pl);
                match delim {
                    Some(d) => {
                        if !inside {
                            push_span(spans, indent, indent + pl, StyleValue::Tag(d));
                            if indent + pl < len {
                                push_span(spans, indent + pl, len, StyleValue::Tag(HighlightTag::Heading(level)));
                            } else {
                                push_span(spans, indent, indent + pl, StyleValue::Tag(HighlightTag::Heading(level)));
                            }
                        } else {
                            push_span(spans, 0, len, StyleValue::Tag(HighlightTag::Heading(level)));
                        }
                    },
                    None => {
                        push_span(spans, 0, len, StyleValue::Tag(HighlightTag::Heading(level)));
                    },
                }
                proof {
                    assert(spans_view(spans@) =~= acc + heading_spans(indent as nat, pl as nat, len as nat, level, coff, delim));
                }
                return;
            },
            None => {},
        }
        proof {
            lemma_quote(tr);
        }
        let quote = tn >= 1 && tv[0] == '>' && (tn == 1 || tv[1] == ' ');
        if quote {
            let ql: usize = if tn >= 2 && tv[1] == ' ' { 2 } else { 1 };
            proof {
                lemma_byte_at_gap(cs@, ws as int, ws + ql as int);
                crate::text::lemma_byte_at_mono(cs@, ws + ql as int, n as int);
            }
            let ghost q0 = spans_view(spans@);
            push_span(spans, indent, indent + ql, StyleValue::Tag(HighlightTag::Blockquote));
            let inside = is_inside(coff, indent, indent + ql);
            match delim {
                Some(d) => {
                    if !inside {
                        push_span(spans, indent, indent + ql, StyleValue::Tag(d));
                    } else {
                        push_span(spans, indent, indent + 1, StyleValue::Tag(HighlightTag::Comment));
                    }
                },
                None => {
                    push_span(spans, indent, indent + 1, StyleValue::Tag(HighlightTag::Comment));
                },
            }
            match callout_at_row(buffer, row, cs, offs) {
                None => {},
                Some(p) => {
                    push_span(spans, 0, len, StyleValue::Tag(HighlightTag::Callout(p.0)));
                    match p.1 {
                        None => {
                            if indent + ql < len {
                                push_span(spans, indent + ql, len, StyleValue::Tag(HighlightTag::Comment));
                            }
                        },
                        Some(h) => {
                            let in_marker = is_inside(coff, h.1, h.2);
                            match delim {
                                Some(d) => {
                                    if !in_marker {
                                        push_span(spans, h.1, h.2, StyleValue::Tag(d));
                                    }
                                },
                                None => {},
                            }
                            match h.3 {
                                Some(tt) => {
                                    push_span(spans, tt.0, tt.1, StyleValue::Tag(HighlightTag::Bold));
                                },
                                None => {},
                            }
                        },
                    }
                },
            }
            proof {
                assert(spans_view(spans@) =~= q0 + quote_spans(buffer.text_view(), row as nat, cs@, coff, delim));
            }
        }
        let ghost a1 = spans_view(spans@);
        let task = tn >= 5 && (tv[0] == '-' || tv[0] == '*') && tv[1] == ' ' && tv[2] == '[' && (tv[3] == ' '
            || tv[3] == 'x' || tv[3] == 'X') && tv[4] == ']' && (tn == 5 || tv[5] == ' ');
        if task {
            let ml: usize = if tn >= 6 { 6 } else { 5 };
            proof {
                lemma_byte_at_gap(cs@, ws as int, ws + ml as int);
                crate::text::lemma_byte_at_mono(cs@, ws + ml as int, n as int);
            }
            let tag = if tv[3] == ' ' { HighlightTag::TaskUnchecked } else { HighlightTag::TaskChecked };
            push_span(spans, indent, indent + ml, StyleValue::Tag(tag));
            let inside = is_inside(coff, indent, indent + ml);
            if !inside {
                match delim {
                    Some(HighlightTag::Hidden) => {
                        push_span(spans, indent, indent + ml, StyleValue::Tag(HighlightTag::Hidden));
                    },
                    Some(d) => {
                        push_span(spans, indent, indent + 2, StyleValue::Tag(d));
                    },
                    None => {},
                }
            }
            proof {
                assert(spans_view(spans@) =~= a1 + task_spans(tr, indent as nat, coff, delim));
            }
        }
        highlight_inline_markdown(line_text, coff, delim, spans);
    }
}

} // verus!
